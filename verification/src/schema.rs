//! The table layouts a star map database may have, and which one a given
//! database uses.

use vstd::prelude::*;

use crate::error::Error;
use crate::text::{chars_of, concat_str, equal_chars, lower_seq, to_ascii_lowercase};

verus! {

/// The two supported database layouts.
#[derive(Debug, Clone, Copy, PartialEq, Eq, Structural)]
pub enum SchemaVariant {
    /// `SolarSystems` / `Jumps` tables.
    StaticData,
    /// `mapSolarSystems` / `mapSolarSystemJumps` tables.
    LegacyMap,
}

impl SchemaVariant {
    /// The layout's name as shown to users.
    pub fn as_str(&self) -> (r: &'static str)
        ensures
            *self == SchemaVariant::StaticData ==> r@ == "static_data"@,
            *self == SchemaVariant::LegacyMap ==> r@ == "legacy_map"@,
    {
        match self {
            SchemaVariant::StaticData => "static_data",
            SchemaVariant::LegacyMap => "legacy_map",
        }
    }
}

/// A table joined to the systems table for names of a system's groups.
#[derive(Debug, Clone, Copy)]
pub struct MetadataJoin {
    pub fk_column: &'static str,
    pub table: &'static str,
    pub table_id_column: &'static str,
    pub table_name_column: &'static str,
}

/// Columns holding a system's coordinates.
#[derive(Debug, Clone, Copy)]
pub struct PositionColumns {
    pub x: &'static str,
    pub y: &'static str,
    pub z: &'static str,
}

/// Where the data of a layout lives.
#[derive(Debug, Clone, Copy)]
pub struct SchemaDefinition {
    pub variant: SchemaVariant,
    pub systems_table: &'static str,
    pub system_id_column: &'static str,
    pub system_name_column: &'static str,
    pub jumps_table: &'static str,
    pub jump_from_column: &'static str,
    pub jump_to_column: &'static str,
    pub constellation_join: Option<MetadataJoin>,
    pub region_join: Option<MetadataJoin>,
    pub security_column: Option<&'static str>,
    pub position_columns: Option<PositionColumns>,
}

/// The constellation names of the current layout.
pub open spec fn constellation_join() -> MetadataJoin {
    MetadataJoin {
        fk_column: "constellationId",
        table: "Constellations",
        table_id_column: "constellationId",
        table_name_column: "name",
    }
}

/// The region names of the current layout.
pub open spec fn region_join() -> MetadataJoin {
    MetadataJoin { fk_column: "regionId", table: "Regions", table_id_column: "regionId", table_name_column: "name" }
}

/// Coordinates as the current layout names them.
pub open spec fn center_columns() -> PositionColumns {
    PositionColumns { x: "centerX", y: "centerY", z: "centerZ" }
}

/// Coordinates under their short names.
pub open spec fn xyz_columns() -> PositionColumns {
    PositionColumns { x: "x", y: "y", z: "z" }
}

/// The full definition of a layout, with every optional part present.
pub open spec fn definition_of(v: SchemaVariant) -> SchemaDefinition {
    match v {
        SchemaVariant::StaticData => SchemaDefinition {
            variant: SchemaVariant::StaticData,
            systems_table: "SolarSystems",
            system_id_column: "solarSystemId",
            system_name_column: "name",
            jumps_table: "Jumps",
            jump_from_column: "fromSystemId",
            jump_to_column: "toSystemId",
            constellation_join: Some(constellation_join()),
            region_join: Some(region_join()),
            security_column: Some("security"),
            position_columns: Some(center_columns()),
        },
        SchemaVariant::LegacyMap => SchemaDefinition {
            variant: SchemaVariant::LegacyMap,
            systems_table: "mapSolarSystems",
            system_id_column: "solarSystemID",
            system_name_column: "solarSystemName",
            jumps_table: "mapSolarSystemJumps",
            jump_from_column: "fromSolarSystemID",
            jump_to_column: "toSolarSystemID",
            constellation_join: None,
            region_join: None,
            security_column: None,
            position_columns: None,
        },
    }
}

impl SchemaVariant {
    /// The layout's full definition.
    pub fn definition(self) -> (r: SchemaDefinition)
        ensures
            r == definition_of(self),
    {
        match self {
            SchemaVariant::StaticData => SchemaDefinition {
                variant: SchemaVariant::StaticData,
                systems_table: "SolarSystems",
                system_id_column: "solarSystemId",
                system_name_column: "name",
                jumps_table: "Jumps",
                jump_from_column: "fromSystemId",
                jump_to_column: "toSystemId",
                constellation_join: Some(MetadataJoin {
                    fk_column: "constellationId",
                    table: "Constellations",
                    table_id_column: "constellationId",
                    table_name_column: "name",
                }),
                region_join: Some(MetadataJoin {
                    fk_column: "regionId",
                    table: "Regions",
                    table_id_column: "regionId",
                    table_name_column: "name",
                }),
                security_column: Some("security"),
                position_columns: Some(PositionColumns { x: "centerX", y: "centerY", z: "centerZ" }),
            },
            SchemaVariant::LegacyMap => SchemaDefinition {
                variant: SchemaVariant::LegacyMap,
                systems_table: "mapSolarSystems",
                system_id_column: "solarSystemID",
                system_name_column: "solarSystemName",
                jumps_table: "mapSolarSystemJumps",
                jump_from_column: "fromSolarSystemID",
                jump_to_column: "toSolarSystemID",
                constellation_join: None,
                region_join: None,
                security_column: None,
                position_columns: None,
            },
        }
    }
}

/// A table of the database and the names of its columns.
#[derive(Debug, Clone)]
pub struct TableInfo {
    pub name: String,
    pub columns: Vec<String>,
}

/// The database has a table named exactly `name`.
pub open spec fn table_exists(tables: Seq<TableInfo>, name: Seq<char>) -> bool {
    exists|i: int| 0 <= i < tables.len() && (#[trigger] tables[i]).name@ == name
}

/// Index of the first table named `name` ignoring ASCII case, from position `i` on.
pub open spec fn table_named_from(tables: Seq<TableInfo>, name: Seq<char>, i: int) -> Option<int>
    decreases tables.len() - i,
{
    if i < 0 || i >= tables.len() {
        None
    } else if lower_seq(tables[i].name@) == lower_seq(name) {
        Some(i)
    } else {
        table_named_from(tables, name, i + 1)
    }
}

/// Table `t` has a column named `col`, ignoring ASCII case.
pub open spec fn table_has_column(t: TableInfo, col: Seq<char>) -> bool {
    exists|k: int| 0 <= k < t.columns@.len() && lower_seq((#[trigger] t.columns@[k])@) == lower_seq(col)
}

/// The table named `name` (ignoring ASCII case) has every column of `cols`;
/// a missing table has no columns.
pub open spec fn has_columns(tables: Seq<TableInfo>, name: Seq<char>, cols: Seq<Seq<char>>) -> bool {
    forall|c: int| 0 <= c < cols.len() ==> match table_named_from(tables, name, 0) {
        Some(i) => table_has_column(tables[i], #[trigger] cols[c]),
        None => false,
    }
}

/// A join is usable: the systems table has its key and the joined table
/// exists with its key and name columns.
pub open spec fn join_usable(tables: Seq<TableInfo>, systems: Seq<char>, j: MetadataJoin) -> bool {
    &&& has_columns(tables, systems, seq![j.fk_column@])
    &&& table_exists(tables, j.table@)
    &&& has_columns(tables, j.table@, seq![j.table_id_column@, j.table_name_column@])
}

/// The tables and columns every layout needs.
pub open spec fn core_present(tables: Seq<TableInfo>, d: SchemaDefinition) -> bool {
    &&& table_exists(tables, d.systems_table@)
    &&& table_exists(tables, d.jumps_table@)
    &&& has_columns(tables, d.systems_table@, seq![d.system_id_column@, d.system_name_column@])
    &&& has_columns(tables, d.jumps_table@, seq![d.jump_from_column@, d.jump_to_column@])
}

/// The coordinate columns of the systems table: the current names, else the
/// short names, else none.
pub open spec fn position_columns_in(tables: Seq<TableInfo>, systems: Seq<char>) -> Option<PositionColumns> {
    let c = center_columns();
    let s = xyz_columns();
    if has_columns(tables, systems, seq![c.x@, c.y@, c.z@]) {
        Some(c)
    } else if has_columns(tables, systems, seq![s.x@, s.y@, s.z@]) {
        Some(s)
    } else {
        None
    }
}

/// The current layout as the database has it: the required tables and
/// columns, with each optional part kept only where its columns exist.
pub open spec fn detect_static(tables: Seq<TableInfo>) -> Option<SchemaDefinition> {
    let d = definition_of(SchemaVariant::StaticData);
    let sys = d.systems_table@;
    if core_present(tables, d) {
        Some(SchemaDefinition {
            variant: d.variant,
            systems_table: d.systems_table,
            system_id_column: d.system_id_column,
            system_name_column: d.system_name_column,
            jumps_table: d.jumps_table,
            jump_from_column: d.jump_from_column,
            jump_to_column: d.jump_to_column,
            constellation_join: if join_usable(tables, sys, constellation_join()) {
                Some(constellation_join())
            } else {
                None
            },
            region_join: if join_usable(tables, sys, region_join()) {
                Some(region_join())
            } else {
                None
            },
            security_column: if has_columns(tables, sys, seq!["security"@]) {
                Some("security")
            } else {
                None
            },
            position_columns: position_columns_in(tables, sys),
        })
    } else {
        None
    }
}

/// The legacy layout, when the database has its tables and columns.
pub open spec fn detect_legacy(tables: Seq<TableInfo>) -> Option<SchemaDefinition> {
    let d = definition_of(SchemaVariant::LegacyMap);
    if core_present(tables, d) {
        Some(d)
    } else {
        None
    }
}

fn same_chars(a: &str, b: &str) -> (r: bool)
    ensures
        r == (a@ == b@),
{
    let x = chars_of(a);
    let y = chars_of(b);
    equal_chars(x.as_slice(), y.as_slice())
}

fn same_ignoring_case(a: &str, b: &str) -> (r: bool)
    ensures
        r == (lower_seq(a@) == lower_seq(b@)),
{
    let x = chars_of(a);
    let y = chars_of(b);
    let lx = to_ascii_lowercase(x.as_slice());
    let ly = to_ascii_lowercase(y.as_slice());
    equal_chars(lx.as_slice(), ly.as_slice())
}

fn find_table(tables: &Vec<TableInfo>, name: &str) -> (r: Option<usize>)
    ensures
        match r {
            Some(i) => table_named_from(tables@, name@, 0) == Some(i as int) && i < tables@.len(),
            None => table_named_from(tables@, name@, 0) is None,
        },
{
    let mut i: usize = 0;
    while i < tables.len()
        invariant
            i <= tables@.len(),
            table_named_from(tables@, name@, 0) == table_named_from(tables@, name@, i as int),
        decreases tables@.len() - i,
    {
        if same_ignoring_case(tables[i].name.as_str(), name) {
            return Some(i);
        }
        i = i + 1;
    }
    None
}

/// Whether the database has a table named exactly `name`.
fn has_table(tables: &Vec<TableInfo>, name: &str) -> (r: bool)
    ensures
        r == table_exists(tables@, name@),
{
    let mut i: usize = 0;
    while i < tables.len()
        invariant
            i <= tables@.len(),
            forall|k: int| 0 <= k < i ==> (#[trigger] tables@[k]).name@ != name@,
        decreases tables@.len() - i,
    {
        if same_chars(tables[i].name.as_str(), name) {
            return true;
        }
        i = i + 1;
    }
    false
}

fn has_column(t: &TableInfo, col: &str) -> (r: bool)
    ensures
        r == table_has_column(*t, col@),
{
    let mut k: usize = 0;
    while k < t.columns.len()
        invariant
            k <= t.columns@.len(),
            forall|j: int| 0 <= j < k ==> lower_seq((#[trigger] t.columns@[j])@) != lower_seq(col@),
        decreases t.columns@.len() - k,
    {
        if same_ignoring_case(t.columns[k].as_str(), col) {
            return true;
        }
        k = k + 1;
    }
    false
}

/// Whether the table named `name` has every column of `cols`.
fn table_has_columns(tables: &Vec<TableInfo>, name: &str, cols: &Vec<&'static str>) -> (r: bool)
    ensures
        r == has_columns(tables@, name@, cols@.map_values(|c: &'static str| c@)),
{
    let ghost cs = cols@.map_values(|c: &'static str| c@);
    if cols.len() == 0 {
        return true;
    }
    let i = match find_table(tables, name) {
        Some(i) => i,
        None => {
            proof {
                assert(cs.len() > 0);
                let c0 = cs[0];
                assert(!has_columns(tables@, name@, cs));
            }
            return false;
        },
    };
    let mut c: usize = 0;
    while c < cols.len()
        invariant
            i < tables@.len(),
            table_named_from(tables@, name@, 0) == Some(i as int),
            cs == cols@.map_values(|c: &'static str| c@),
            c <= cols@.len(),
            forall|k: int| 0 <= k < c ==> table_has_column(tables@[i as int], #[trigger] cs[k]),
        decreases cols@.len() - c,
    {
        if !has_column(&tables[i], cols[c]) {
            proof {
                assert(!table_has_column(tables@[i as int], cs[c as int]));
            }
            return false;
        }
        c = c + 1;
    }
    true
}

fn join_is_usable(tables: &Vec<TableInfo>, systems: &'static str, j: MetadataJoin) -> (r: bool)
    ensures
        r == join_usable(tables@, systems@, j),
{
    let fk = vec![j.fk_column];
    let cols = vec![j.table_id_column, j.table_name_column];
    proof {
        assert(fk@.map_values(|c: &'static str| c@) =~= seq![j.fk_column@]);
        assert(cols@.map_values(|c: &'static str| c@) =~= seq![j.table_id_column@, j.table_name_column@]);
    }
    table_has_columns(tables, systems, &fk) && has_table(tables, j.table) && table_has_columns(tables, j.table, &cols)
}

fn core_is_present(tables: &Vec<TableInfo>, d: &SchemaDefinition) -> (r: bool)
    ensures
        r == core_present(tables@, *d),
{
    let sys_cols = vec![d.system_id_column, d.system_name_column];
    let jump_cols = vec![d.jump_from_column, d.jump_to_column];
    proof {
        assert(sys_cols@.map_values(|c: &'static str| c@) =~= seq![d.system_id_column@, d.system_name_column@]);
        assert(jump_cols@.map_values(|c: &'static str| c@) =~= seq![d.jump_from_column@, d.jump_to_column@]);
    }
    has_table(tables, d.systems_table) && has_table(tables, d.jumps_table)
        && table_has_columns(tables, d.systems_table, &sys_cols) && table_has_columns(tables, d.jumps_table, &jump_cols)
}

/// The current layout as the database has it, if it has its required tables
/// and columns: joins, security column and coordinates are kept only where
/// their columns exist.
pub fn detect_static_schema(tables: &Vec<TableInfo>) -> (r: Option<SchemaDefinition>)
    ensures
        r == detect_static(tables@),
{
    let mut schema = SchemaVariant::StaticData.definition();
    if !core_is_present(tables, &schema) {
        return None;
    }
    let sys = schema.systems_table;
    let cj = MetadataJoin {
        fk_column: "constellationId",
        table: "Constellations",
        table_id_column: "constellationId",
        table_name_column: "name",
    };
    if !join_is_usable(tables, sys, cj) {
        schema.constellation_join = None;
    }
    let rj = MetadataJoin { fk_column: "regionId", table: "Regions", table_id_column: "regionId", table_name_column: "name" };
    if !join_is_usable(tables, sys, rj) {
        schema.region_join = None;
    }
    let security = vec!["security"];
    let center = vec!["centerX", "centerY", "centerZ"];
    let xyz = vec!["x", "y", "z"];
    proof {
        assert(security@.map_values(|c: &'static str| c@) =~= seq!["security"@]);
        assert(center@.map_values(|c: &'static str| c@) =~= seq![center_columns().x@, center_columns().y@, center_columns().z@]);
        assert(xyz@.map_values(|c: &'static str| c@) =~= seq![xyz_columns().x@, xyz_columns().y@, xyz_columns().z@]);
    }
    if !table_has_columns(tables, sys, &security) {
        schema.security_column = None;
    }
    schema.position_columns = if table_has_columns(tables, sys, &center) {
        Some(PositionColumns { x: "centerX", y: "centerY", z: "centerZ" })
    } else if table_has_columns(tables, sys, &xyz) {
        Some(PositionColumns { x: "x", y: "y", z: "z" })
    } else {
        None
    };
    Some(schema)
}

/// The legacy layout, if the database has its tables and columns.
pub fn detect_legacy_schema(tables: &Vec<TableInfo>) -> (r: Option<SchemaDefinition>)
    ensures
        r == detect_legacy(tables@),
{
    let schema = SchemaVariant::LegacyMap.definition();
    if core_is_present(tables, &schema) {
        Some(schema)
    } else {
        None
    }
}

/// The layout of a database: the current one when present, else the legacy
/// one; a database with neither is unsupported.
pub fn detect_schema(tables: &Vec<TableInfo>) -> (r: Result<SchemaDefinition, Error>)
    ensures
        match detect_static(tables@) {
            Some(d) => r matches Ok(x) && x == d,
            None => match detect_legacy(tables@) {
                Some(d) => r matches Ok(x) && x == d,
                None => r matches Err(Error::UnsupportedSchema),
            },
        },
{
    if let Some(schema) = detect_static_schema(tables) {
        return Ok(schema);
    }
    if let Some(schema) = detect_legacy_schema(tables) {
        return Ok(schema);
    }
    Err(Error::UnsupportedSchema)
}

// ---------------------------------------------------------------------------
// Queries for a layout
// ---------------------------------------------------------------------------

/// `parts` joined with `sep` between neighbours.
pub open spec fn joined(parts: Seq<Seq<char>>, sep: Seq<char>) -> Seq<char>
    decreases parts.len(),
{
    if parts.len() == 0 {
        Seq::empty()
    } else if parts.len() == 1 {
        parts[0]
    } else {
        joined(parts.drop_last(), sep) + sep + parts.last()
    }
}

/// Each of `parts` preceded by a space.
pub open spec fn spaced(parts: Seq<Seq<char>>) -> Seq<char>
    decreases parts.len(),
{
    if parts.len() == 0 {
        Seq::empty()
    } else {
        spaced(parts.drop_last()) + " "@ + parts.last()
    }
}

/// `column AS alias` on the systems table (`s`).
pub open spec fn system_column(column: Seq<char>, alias: Seq<char>) -> Seq<char> {
    "s."@ + column + " AS "@ + alias
}

/// The select list for one optional join: key and name, or two nulls.
pub open spec fn join_selects(j: Option<MetadataJoin>, letter: Seq<char>, prefix: Seq<char>) -> Seq<Seq<char>> {
    match j {
        Some(j) => seq![
            system_column(j.fk_column@, prefix + "_id"@),
            letter + "."@ + j.table_name_column@ + " AS "@ + (prefix + "_name"@),
        ],
        None => seq!["NULL AS "@ + (prefix + "_id"@), "NULL AS "@ + (prefix + "_name"@)],
    }
}

/// The columns the system query selects, in order.
pub open spec fn select_list(d: SchemaDefinition) -> Seq<Seq<char>> {
    seq![system_column(d.system_id_column@, "system_id"@), system_column(d.system_name_column@, "system_name"@)]
        + join_selects(d.constellation_join, "c"@, "constellation"@)
        + join_selects(d.region_join, "r"@, "region"@)
        + match d.security_column {
            Some(c) => seq![system_column(c@, "security_status"@)],
            None => seq!["NULL AS security_status"@],
        }
        + match d.position_columns {
            Some(p) => seq![
                system_column(p.x@, "position_x"@),
                system_column(p.y@, "position_y"@),
                system_column(p.z@, "position_z"@),
            ],
            None => seq!["NULL AS position_x"@, "NULL AS position_y"@, "NULL AS position_z"@],
        }
        + seq![system_column("star_temperature"@, "star_temperature"@), system_column("star_luminosity"@, "star_luminosity"@)]
}

/// The left join of one optional metadata table.
pub open spec fn join_clause(j: Option<MetadataJoin>, letter: Seq<char>) -> Seq<Seq<char>> {
    match j {
        Some(j) => seq![
            "LEFT JOIN "@ + j.table@ + " "@ + letter + " ON "@ + letter + "."@ + j.table_id_column@ + " = s."@
                + j.fk_column@,
        ],
        None => Seq::empty(),
    }
}

/// Query text that loads the systems of the current layout.
pub open spec fn static_systems_sql(d: SchemaDefinition) -> Seq<char> {
    "SELECT "@ + joined(select_list(d), ", "@) + " FROM "@ + d.systems_table@ + " s"@ + spaced(
        join_clause(d.constellation_join, "c"@) + join_clause(d.region_join, "r"@),
    )
}

pub(crate) fn join_strings(parts: &Vec<String>, sep: &str) -> (r: String)
    ensures
        r@ == joined(parts@.map_values(|p: String| p@), sep@),
{
    let ghost ps = parts@.map_values(|p: String| p@);
    if parts.len() == 0 {
        return String::new();
    }
    let mut out = parts[0].clone();
    let mut i: usize = 1;
    proof {
        assert(ps.take(1).len() == 1);
        assert(joined(ps.take(1), sep@) == ps.take(1)[0]);
    }
    while i < parts.len()
        invariant
            1 <= i <= parts@.len(),
            ps == parts@.map_values(|p: String| p@),
            out@ == joined(ps.take(i as int), sep@),
        decreases parts@.len() - i,
    {
        let with_sep = concat_str(out.as_str(), sep);
        out = concat_str(with_sep.as_str(), parts[i].as_str());
        proof {
            assert(ps.take(i + 1).drop_last() =~= ps.take(i as int));
            assert(ps.take(i + 1).last() == parts@[i as int]@);
        }
        i = i + 1;
    }
    proof {
        assert(ps.take(parts@.len() as int) =~= ps);
    }
    out
}

fn push_text(v: &mut Vec<String>, s: String)
    ensures
        final(v)@.map_values(|p: String| p@) == old(v)@.map_values(|p: String| p@).push(s@),
{
    v.push(s);
    proof {
        assert(final(v)@.map_values(|p: String| p@) =~= old(v)@.map_values(|p: String| p@).push(s@));
    }
}

fn system_column_text(column: &str, alias: &str) -> (r: String)
    ensures
        r@ == system_column(column@, alias@),
{
    let a = concat_str("s.", column);
    let b = concat_str(a.as_str(), " AS ");
    concat_str(b.as_str(), alias)
}

fn push_join_selects(v: &mut Vec<String>, j: Option<MetadataJoin>, letter: &str, prefix: &str)
    ensures
        final(v)@.map_values(|p: String| p@) == old(v)@.map_values(|p: String| p@) + join_selects(j, letter@, prefix@),
{
    let id_alias = concat_str(prefix, "_id");
    let name_alias = concat_str(prefix, "_name");
    match j {
        Some(j) => {
            push_text(v, system_column_text(j.fk_column, id_alias.as_str()));
            let a = concat_str(letter, ".");
            let b = concat_str(a.as_str(), j.table_name_column);
            let c = concat_str(b.as_str(), " AS ");
            push_text(v, concat_str(c.as_str(), name_alias.as_str()));
        },
        None => {
            push_text(v, concat_str("NULL AS ", id_alias.as_str()));
            push_text(v, concat_str("NULL AS ", name_alias.as_str()));
        },
    }
    proof {
        assert(final(v)@.map_values(|p: String| p@) =~= old(v)@.map_values(|p: String| p@) + join_selects(j, letter@, prefix@));
    }
}

fn join_clause_text(j: MetadataJoin, letter: &str) -> (r: String)
    ensures
        join_clause(Some(j), letter@) == seq![r@],
{
    let a = concat_str("LEFT JOIN ", j.table);
    let b = concat_str(a.as_str(), " ");
    let c = concat_str(b.as_str(), letter);
    let d = concat_str(c.as_str(), " ON ");
    let e = concat_str(d.as_str(), letter);
    let f = concat_str(e.as_str(), ".");
    let g = concat_str(f.as_str(), j.table_id_column);
    let h = concat_str(g.as_str(), " = s.");
    concat_str(h.as_str(), j.fk_column)
}

/// Query text that loads the systems of the current layout: identifiers,
/// names, group names through the joins the layout has, security status,
/// coordinates and star data, with `NULL` for each part the layout lacks.
pub fn static_systems_query(d: &SchemaDefinition) -> (r: String)
    ensures
        r@ == static_systems_sql(*d),
{
    let mut selects: Vec<String> = Vec::new();
    push_text(&mut selects, system_column_text(d.system_id_column, "system_id"));
    push_text(&mut selects, system_column_text(d.system_name_column, "system_name"));
    proof {
        assert(selects@.map_values(|p: String| p@) =~= seq![
            system_column(d.system_id_column@, "system_id"@),
            system_column(d.system_name_column@, "system_name"@),
        ]);
    }
    push_join_selects(&mut selects, d.constellation_join, "c", "constellation");
    push_join_selects(&mut selects, d.region_join, "r", "region");
    match d.security_column {
        Some(c) => push_text(&mut selects, system_column_text(c, "security_status")),
        None => push_text(&mut selects, "NULL AS security_status".to_owned()),
    }
    match d.position_columns {
        Some(p) => {
            push_text(&mut selects, system_column_text(p.x, "position_x"));
            push_text(&mut selects, system_column_text(p.y, "position_y"));
            push_text(&mut selects, system_column_text(p.z, "position_z"));
        },
        None => {
            push_text(&mut selects, "NULL AS position_x".to_owned());
            push_text(&mut selects, "NULL AS position_y".to_owned());
            push_text(&mut selects, "NULL AS position_z".to_owned());
        },
    }
    push_text(&mut selects, system_column_text("star_temperature", "star_temperature"));
    push_text(&mut selects, system_column_text("star_luminosity", "star_luminosity"));
    proof {
        assert(selects@.map_values(|p: String| p@) =~= select_list(*d));
    }
    let list = join_strings(&selects, ", ");
    let a = concat_str("SELECT ", list.as_str());
    let b = concat_str(a.as_str(), " FROM ");
    let c = concat_str(b.as_str(), d.systems_table);
    let mut sql = concat_str(c.as_str(), " s");
    let ghost head = sql@;
    let ghost joins = join_clause(d.constellation_join, "c"@) + join_clause(d.region_join, "r"@);
    match d.constellation_join {
        Some(j) => {
            let t = join_clause_text(j, "c");
            let sp = concat_str(sql.as_str(), " ");
            sql = concat_str(sp.as_str(), t.as_str());
        },
        None => {},
    }
    let ghost after_c = sql@;
    proof {
        let jc = join_clause(d.constellation_join, "c"@);
        assert(jc.len() == 0 ==> spaced(jc) =~= Seq::<char>::empty());
        reveal_with_fuel(spaced, 2);
        assert(after_c == head + spaced(jc));
    }
    match d.region_join {
        Some(j) => {
            let t = join_clause_text(j, "r");
            let sp = concat_str(sql.as_str(), " ");
            sql = concat_str(sp.as_str(), t.as_str());
        },
        None => {},
    }
    proof {
        let jc = join_clause(d.constellation_join, "c"@);
        let jr = join_clause(d.region_join, "r"@);
        if jr.len() == 0 {
            assert(joins =~= jc);
        } else {
            assert(joins.drop_last() =~= jc);
            assert(joins.last() == jr[0]);
        }
        assert(sql@ =~= head + spaced(joins));
    }
    sql
}

/// Query text that loads the systems of the legacy layout: identifier and name.
pub fn legacy_systems_query(d: &SchemaDefinition) -> (r: String)
    ensures
        r@ == "SELECT "@ + d.system_id_column@ + ", "@ + d.system_name_column@ + " FROM "@ + d.systems_table@,
{
    let a = concat_str("SELECT ", d.system_id_column);
    let b = concat_str(a.as_str(), ", ");
    let c = concat_str(b.as_str(), d.system_name_column);
    let e = concat_str(c.as_str(), " FROM ");
    concat_str(e.as_str(), d.systems_table)
}

/// Query text that loads the jumps of a layout: both ends of each jump.
pub fn jumps_query(d: &SchemaDefinition) -> (r: String)
    ensures
        r@ == "SELECT "@ + d.jump_from_column@ + ", "@ + d.jump_to_column@ + " FROM "@ + d.jumps_table@,
{
    let a = concat_str("SELECT ", d.jump_from_column);
    let b = concat_str(a.as_str(), ", ");
    let c = concat_str(b.as_str(), d.jump_to_column);
    let e = concat_str(c.as_str(), " FROM ");
    concat_str(e.as_str(), d.jumps_table)
}

} // verus!
