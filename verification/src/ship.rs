//! Ship names and columns as the ship catalog reads them.

use vstd::prelude::*;

use crate::error::Error;
use crate::schema::{join_strings, joined};
use crate::text::{ascii_lower, chars_of, concat_str, equal_chars, opt_text, string_of, texts, trim, trimmed};

verus! {

/// Lowercase text as `str::to_lowercase` produces it.
pub uninterp spec fn lowercase_text(s: Seq<char>) -> Seq<char>;

/// Calls `str::to_lowercase`. Trusted: the result is std's Unicode
/// lowercase mapping of `s`.
#[verifier::external_body]
fn to_lowercase(s: &str) -> (r: String)
    ensures
        r@ == lowercase_text(s@),
{
    s.to_lowercase()
}

/// Key under which a ship name is looked up: trimmed and lowercased.
pub fn normalize_name(name: &str) -> (r: String)
    ensures
        r@ == lowercase_text(trimmed(name@)),
{
    let t = trim(chars_of(name).as_slice());
    let s = string_of(t.as_slice());
    to_lowercase(s.as_str())
}

// ---------------------------------------------------------------------------
// Columns of the ship data file
// ---------------------------------------------------------------------------

/// A header character that matching keeps: an ASCII letter or digit, or `_`.
pub open spec fn is_key_char(c: char) -> bool {
    ('a' <= c <= 'z') || ('A' <= c <= 'Z') || ('0' <= c <= '9') || c == '_'
}

/// A header as the catalog matches it: lowercased, keeping only ASCII
/// letters, digits and `_`.
pub open spec fn header_key(s: Seq<char>) -> Seq<char>
    decreases s.len(),
{
    if s.len() == 0 {
        Seq::empty()
    } else if is_key_char(s.last()) {
        header_key(s.drop_last()).push(ascii_lower(s.last()))
    } else {
        header_key(s.drop_last())
    }
}

fn key_chars(s: &str) -> (r: Vec<char>)
    ensures
        r@ == header_key(s@),
{
    let v = chars_of(s);
    let mut r: Vec<char> = Vec::new();
    let mut k: usize = 0;
    while k < v.len()
        invariant
            k <= v@.len(),
            v@ == s@,
            r@ == header_key(v@.take(k as int)),
        decreases v@.len() - k,
    {
        let c = v[k];
        proof {
            assert(v@.take(k + 1).drop_last() =~= v@.take(k as int));
        }
        if ('a' <= c && c <= 'z') || ('0' <= c && c <= '9') || c == '_' {
            r.push(c);
        } else if 'A' <= c && c <= 'Z' {
            let code: u32 = c as u32;
            let b: u8 = (code + 32) as u8;
            proof {
                assert((code + 32) as char == ascii_lower(c));
            }
            r.push(b as char);
        }
        k = k + 1;
    }
    proof {
        assert(v@.take(v@.len() as int) =~= v@);
    }
    r
}

/// The key of a header: lowercased, keeping only ASCII letters, digits and `_`.
pub fn normalize_header(s: &str) -> (r: String)
    ensures
        r@ == header_key(s@),
{
    let k = key_chars(s);
    string_of(k.as_slice())
}

/// Index of the first key from position `i` on that equals `k`.
pub open spec fn first_key_from(keys: Seq<Seq<char>>, k: Seq<char>, i: int) -> Option<int>
    decreases keys.len() - i,
{
    if i < 0 || i >= keys.len() {
        None
    } else if keys[i] == k {
        Some(i)
    } else {
        first_key_from(keys, k, i + 1)
    }
}

/// Column of a field: the first header matching the first of the field's
/// names (from position `j` on) that any header matches.
pub open spec fn column_from(keys: Seq<Seq<char>>, names: Seq<Seq<char>>, j: int) -> Option<int>
    decreases names.len() - j,
{
    if j < 0 || j >= names.len() {
        None
    } else {
        match first_key_from(keys, header_key(names[j]), 0) {
            Some(i) => Some(i),
            None => column_from(keys, names, j + 1),
        }
    }
}

/// The keys of a header row.
pub open spec fn header_keys(headers: Seq<Seq<char>>) -> Seq<Seq<char>> {
    headers.map_values(|h: Seq<char>| header_key(h))
}

/// Names under which the ship name column may appear.
pub open spec fn name_columns() -> Seq<Seq<char>> {
    seq!["name"@, "shipname"@, "ship_name"@, "ship"@]
}

/// Names under which the hull mass column may appear.
pub open spec fn mass_columns() -> Seq<Seq<char>> {
    seq!["base_mass_kg"@, "mass_kg"@, "mass"@, "masskg"@, "masskg_kg"@]
}

/// Names under which the specific heat column may appear.
pub open spec fn specific_heat_columns() -> Seq<Seq<char>> {
    seq!["specific_heat"@, "specificheat_c"@, "specificheat"@]
}

/// Names under which the fuel capacity column may appear.
pub open spec fn fuel_capacity_columns() -> Seq<Seq<char>> {
    seq!["fuel_capacity"@, "fuel_capacity_units"@, "fuelcapacity_units"@, "fuelcapacity"@]
}

/// Names under which the cargo capacity column may appear.
pub open spec fn cargo_capacity_columns() -> Seq<Seq<char>> {
    seq!["cargo_capacity"@, "capacity_m3"@, "capacity"@]
}

/// Where each field of a ship stands in a row of the ship data file.
#[derive(Debug, Clone, Copy, PartialEq, Eq, Structural)]
pub struct ShipColumns {
    pub name: usize,
    pub base_mass_kg: usize,
    pub specific_heat: usize,
    pub fuel_capacity: usize,
    pub cargo_capacity: usize,
}

/// The columns of the five fields for a header row, in field order.
pub open spec fn ship_columns(headers: Seq<Seq<char>>) -> Seq<Option<int>> {
    let keys = header_keys(headers);
    seq![
        column_from(keys, name_columns(), 0),
        column_from(keys, mass_columns(), 0),
        column_from(keys, specific_heat_columns(), 0),
        column_from(keys, fuel_capacity_columns(), 0),
        column_from(keys, cargo_capacity_columns(), 0),
    ]
}

/// The canonical names of the five fields, in field order.
pub open spec fn field_names() -> Seq<Seq<char>> {
    seq!["name"@, "base_mass_kg"@, "specific_heat"@, "fuel_capacity"@, "cargo_capacity"@]
}

/// Canonical names of the fields among the first `n` that no header matches.
pub open spec fn missing_upto(cols: Seq<Option<int>>, n: int) -> Seq<Seq<char>>
    decreases n,
{
    if n <= 0 {
        Seq::empty()
    } else if cols[n - 1] is None {
        missing_upto(cols, n - 1).push(field_names()[n - 1])
    } else {
        missing_upto(cols, n - 1)
    }
}

fn first_key(keys: &Vec<Vec<char>>, k: &Vec<char>) -> (r: Option<usize>)
    ensures
        match r {
            Some(i) => first_key_from(keys@.map_values(|v: Vec<char>| v@), k@, 0) == Some(i as int),
            None => first_key_from(keys@.map_values(|v: Vec<char>| v@), k@, 0) is None,
        },
{
    let ghost ks = keys@.map_values(|v: Vec<char>| v@);
    let mut i: usize = 0;
    while i < keys.len()
        invariant
            i <= keys@.len(),
            ks == keys@.map_values(|v: Vec<char>| v@),
            first_key_from(ks, k@, 0) == first_key_from(ks, k@, i as int),
        decreases keys@.len() - i,
    {
        if equal_chars(keys[i].as_slice(), k.as_slice()) {
            return Some(i);
        }
        i = i + 1;
    }
    None
}

fn column_of(keys: &Vec<Vec<char>>, names: &Vec<&str>) -> (r: Option<usize>)
    ensures
        match r {
            Some(i) => column_from(keys@.map_values(|v: Vec<char>| v@), names@.map_values(|n: &str| n@), 0) == Some(i as int),
            None => column_from(keys@.map_values(|v: Vec<char>| v@), names@.map_values(|n: &str| n@), 0) is None,
        },
{
    let ghost ks = keys@.map_values(|v: Vec<char>| v@);
    let ghost ns = names@.map_values(|n: &str| n@);
    let mut j: usize = 0;
    while j < names.len()
        invariant
            j <= names@.len(),
            ks == keys@.map_values(|v: Vec<char>| v@),
            ns == names@.map_values(|n: &str| n@),
            column_from(ks, ns, 0) == column_from(ks, ns, j as int),
        decreases names@.len() - j,
    {
        let k = key_chars(names[j]);
        proof {
            assert(ns[j as int] == names@[j as int]@);
        }
        match first_key(keys, &k) {
            Some(i) => {
                return Some(i);
            },
            None => {},
        }
        j = j + 1;
    }
    None
}

/// Locate the five ship fields in a header row.
///
/// Headers and field names are compared by their keys (see `header_key`);
/// each field may appear under several names, tried in order, and the first
/// header matching a name is taken. When a field has no column, the error
/// lists the canonical names of all such fields, in field order.
pub fn resolve_ship_columns(headers: &Vec<String>) -> (r: Result<ShipColumns, Vec<String>>)
    ensures
        match r {
            Ok(c) => ship_columns(texts(headers@)) == seq![
                Some(c.name as int),
                Some(c.base_mass_kg as int),
                Some(c.specific_heat as int),
                Some(c.fuel_capacity as int),
                Some(c.cargo_capacity as int),
            ],
            Err(missing) => {
                &&& missing@.map_values(|m: String| m@) == missing_upto(ship_columns(texts(headers@)), 5)
                &&& missing@.len() > 0
            },
        },
{
    let mut keys: Vec<Vec<char>> = Vec::new();
    let mut i: usize = 0;
    while i < headers.len()
        invariant
            i <= headers@.len(),
            keys@.len() == i,
            keys@.map_values(|v: Vec<char>| v@) == header_keys(texts(headers@)).take(i as int),
        decreases headers@.len() - i,
    {
        let k = key_chars(headers[i].as_str());
        let ghost before = keys@;
        keys.push(k);
        proof {
            assert(k@ == header_key(headers@[i as int]@));
            let km = keys@.map_values(|v: Vec<char>| v@);
            let bm = before.map_values(|v: Vec<char>| v@);
            let hk = header_keys(texts(headers@));
            assert forall|j: int| 0 <= j <= i implies #[trigger] km[j] == hk[j] by {
                if j < i {
                    assert(keys@[j] == before[j]);
                    assert(bm[j] == hk.take(i as int)[j]);
                }
            }
            assert(keys@.map_values(|v: Vec<char>| v@) =~= header_keys(texts(headers@)).take(i + 1));
        }
        i = i + 1;
    }
    proof {
        assert(header_keys(texts(headers@)).take(headers@.len() as int) =~= header_keys(texts(headers@)));
    }
    let name_names: Vec<&str> = vec!["name", "shipname", "ship_name", "ship"];
    let mass_names: Vec<&str> = vec!["base_mass_kg", "mass_kg", "mass", "masskg", "masskg_kg"];
    let heat_names: Vec<&str> = vec!["specific_heat", "specificheat_c", "specificheat"];
    let fuel_names: Vec<&str> = vec!["fuel_capacity", "fuel_capacity_units", "fuelcapacity_units", "fuelcapacity"];
    let cargo_names: Vec<&str> = vec!["cargo_capacity", "capacity_m3", "capacity"];
    proof {
        assert(name_names@.map_values(|n: &str| n@) =~= name_columns());
        assert(mass_names@.map_values(|n: &str| n@) =~= mass_columns());
        assert(heat_names@.map_values(|n: &str| n@) =~= specific_heat_columns());
        assert(fuel_names@.map_values(|n: &str| n@) =~= fuel_capacity_columns());
        assert(cargo_names@.map_values(|n: &str| n@) =~= cargo_capacity_columns());
    }
    let name = column_of(&keys, &name_names);
    let mass = column_of(&keys, &mass_names);
    let heat = column_of(&keys, &heat_names);
    let fuel = column_of(&keys, &fuel_names);
    let cargo = column_of(&keys, &cargo_names);
    let ghost cols = ship_columns(texts(headers@));
    match (name, mass, heat, fuel, cargo) {
        (Some(a), Some(b), Some(c), Some(d), Some(e)) => {
            let cols_found = ShipColumns { name: a, base_mass_kg: b, specific_heat: c, fuel_capacity: d, cargo_capacity: e };
            proof {
                assert(cols =~= seq![Some(a as int), Some(b as int), Some(c as int), Some(d as int), Some(e as int)]);
            }
            Ok(cols_found)
        },
        _ => {
            let mut missing: Vec<String> = Vec::new();
            if name.is_none() {
                missing.push("name".to_owned());
            }
            if mass.is_none() {
                missing.push("base_mass_kg".to_owned());
            }
            if heat.is_none() {
                missing.push("specific_heat".to_owned());
            }
            if fuel.is_none() {
                missing.push("fuel_capacity".to_owned());
            }
            if cargo.is_none() {
                missing.push("cargo_capacity".to_owned());
            }
            proof {
                assert(cols[0] is None <==> name is None);
                assert(cols[1] is None <==> mass is None);
                assert(cols[2] is None <==> heat is None);
                assert(cols[3] is None <==> fuel is None);
                assert(cols[4] is None <==> cargo is None);
                reveal_with_fuel(missing_upto, 6);
                assert(missing@.map_values(|m: String| m@) =~= missing_upto(cols, 5));
            }
            Err(missing)
        },
    }
}

// ---------------------------------------------------------------------------
// Rows of the ship data file
// ---------------------------------------------------------------------------

/// What the `csv` crate reads from `text` with every field trimmed: the
/// header fields (`None` when they cannot be read), the records read before
/// the first one that cannot be, and the message of the error that stopped
/// reading.
pub uninterp spec fn csv_table(text: Seq<u8>) -> (Option<Seq<Seq<char>>>, Seq<Seq<Seq<char>>>, Option<Seq<char>>);

/// Reads `text` with `csv::ReaderBuilder` (`Trim::Fields`): the headers, then
/// records until the first error. Trusted: the result is what the crate reads
/// from these bytes, which depends on them alone.
#[verifier::external_body]
fn read_csv(text: &[u8]) -> (r: (Option<Vec<String>>, Vec<Vec<String>>, Option<String>))
    ensures
        (match r.0 {
            Some(h) => Some(texts(h@)),
            None => None,
        }, r.1@.map_values(|rec: Vec<String>| texts(rec@)), opt_text(r.2)) == csv_table(text@),
{
    let mut reader = csv::ReaderBuilder::new().trim(csv::Trim::Fields).from_reader(text);
    let headers: Vec<String> = match reader.headers() {
        Ok(h) => h.iter().map(|f| f.to_string()).collect(),
        Err(e) => return (None, Vec::new(), Some(e.to_string())),
    };
    let mut records = Vec::new();
    for record in reader.records() {
        match record {
            Ok(rec) => records.push(rec.iter().map(|f| f.to_string()).collect()),
            Err(e) => return (Some(headers), records, Some(e.to_string())),
        }
    }
    (Some(headers), records, None)
}

/// A row of the ship data file as text: the ship's name, the text of each
/// numeric field (`None` when the row is too short for its column), the
/// name's catalog key, and whether an earlier row has the same key.
#[derive(Debug, Clone)]
pub struct ShipRow {
    pub name: String,
    pub base_mass_kg: Option<String>,
    pub specific_heat: Option<String>,
    pub fuel_capacity: Option<String>,
    pub cargo_capacity: Option<String>,
    pub key: String,
    pub duplicate: bool,
}

/// The rows read from a ship data file, and the message of the error that
/// stopped reading, if one did.
#[derive(Debug, Clone)]
pub struct ShipTable {
    pub rows: Vec<ShipRow>,
    pub error: Option<String>,
}

/// The trimmed field of `record` in column `col`, if the record has one.
pub open spec fn field_text(record: Seq<Seq<char>>, col: int) -> Option<Seq<char>> {
    if 0 <= col < record.len() {
        Some(trimmed(record[col]))
    } else {
        None
    }
}

/// The ship name of a record: its name field, or empty text.
pub open spec fn name_text(record: Seq<Seq<char>>, c: ShipColumns) -> Seq<char> {
    match field_text(record, c.name as int) {
        Some(t) => t,
        None => Seq::empty(),
    }
}

/// The catalog key of a record's ship name.
pub open spec fn ship_key(record: Seq<Seq<char>>, c: ShipColumns) -> Seq<char> {
    lowercase_text(trimmed(name_text(record, c)))
}

/// `row` holds the fields of `record`, read in columns `c` after the records
/// `earlier`.
pub open spec fn row_of(row: ShipRow, record: Seq<Seq<char>>, c: ShipColumns, earlier: Seq<Seq<Seq<char>>>) -> bool {
    &&& row.name@ == name_text(record, c)
    &&& opt_text(row.base_mass_kg) == field_text(record, c.base_mass_kg as int)
    &&& opt_text(row.specific_heat) == field_text(record, c.specific_heat as int)
    &&& opt_text(row.fuel_capacity) == field_text(record, c.fuel_capacity as int)
    &&& opt_text(row.cargo_capacity) == field_text(record, c.cargo_capacity as int)
    &&& row.key@ == ship_key(record, c)
    &&& row.duplicate == exists|j: int| 0 <= j < earlier.len() && #[trigger] ship_key(earlier[j], c) == ship_key(record, c)
}

/// The columns of the five fields, when all of them have one.
pub open spec fn resolved_columns(headers: Seq<Seq<char>>) -> Option<ShipColumns> {
    let cols = ship_columns(headers);
    if cols[0] is Some && cols[1] is Some && cols[2] is Some && cols[3] is Some && cols[4] is Some {
        Some(
            ShipColumns {
                name: cols[0]->Some_0 as usize,
                base_mass_kg: cols[1]->Some_0 as usize,
                specific_heat: cols[2]->Some_0 as usize,
                fuel_capacity: cols[3]->Some_0 as usize,
                cargo_capacity: cols[4]->Some_0 as usize,
            },
        )
    } else {
        None
    }
}

/// The message for a header row that lacks required columns.
pub open spec fn missing_columns_text(headers: Seq<Seq<char>>) -> Seq<char> {
    "ship_data.csv missing required columns: "@ + joined(missing_upto(ship_columns(headers), 5), ", "@)
        + ". Available: "@ + joined(headers, ", "@)
}

fn field_of(record: &Vec<String>, col: usize) -> (r: Option<String>)
    ensures
        opt_text(r) == field_text(texts(record@), col as int),
{
    if col < record.len() {
        let t = trim(chars_of(record[col].as_str()).as_slice());
        Some(string_of(t.as_slice()))
    } else {
        None
    }
}

fn key_seen(rows: &Vec<ShipRow>, key: &String) -> (r: bool)
    ensures
        r == exists|j: int| 0 <= j < rows@.len() && #[trigger] rows@[j].key@ == key@,
{
    let k = chars_of(key.as_str());
    let mut j: usize = 0;
    while j < rows.len()
        invariant
            j <= rows@.len(),
            k@ == key@,
            forall|i: int| 0 <= i < j ==> #[trigger] rows@[i].key@ != key@,
        decreases rows@.len() - j,
    {
        let other = chars_of(rows[j].key.as_str());
        if equal_chars(other.as_slice(), k.as_slice()) {
            return true;
        }
        j = j + 1;
    }
    false
}

/// Read the rows of a ship data file.
///
/// Headers that cannot be read, and a header row without a column for
/// each field, are reported as invalid ship data. Otherwise every record
/// read gives a row (see `row_of`), and an error that stopped reading is
/// kept with them.
pub fn ship_rows(text: &[u8]) -> (r: Result<ShipTable, Error>)
    ensures
        match csv_table(text@) {
            (None, _, e) => r matches Err(Error::ShipDataValidation { message })
                && message@ == "failed to read ship_data.csv headers: "@ + match e {
                    Some(m) => m,
                    None => Seq::<char>::empty(),
                },
            (Some(hs), records, e) => match resolved_columns(hs) {
                None => r matches Err(Error::ShipDataValidation { message }) && message@ == missing_columns_text(hs),
                Some(c) => r matches Ok(t) && (t.rows@.len() == records.len() && opt_text(t.error) == e && forall|i: int|
                    0 <= i < records.len() ==> row_of(#[trigger] t.rows@[i], records[i], c, records.take(i))),
            },
        },
{
    let (headers, records, error) = read_csv(text);
    let ghost recs = records@.map_values(|rec: Vec<String>| texts(rec@));
    let headers = match headers {
        Some(h) => h,
        None => {
            let m = match &error {
                Some(m) => m.clone(),
                None => String::new(),
            };
            return Err(Error::ShipDataValidation { message: concat_str("failed to read ship_data.csv headers: ", m.as_str()) });
        },
    };
    let ghost hs = texts(headers@);
    let c = match resolve_ship_columns(&headers) {
        Ok(c) => c,
        Err(missing) => {
            proof {
                reveal_with_fuel(missing_upto, 6);
                assert(texts(missing@) == missing_upto(ship_columns(hs), 5));
                assert(resolved_columns(hs) is None);
            }
            let wanted = join_strings(&missing, ", ");
            let available = join_strings(&headers, ", ");
            let a = concat_str("ship_data.csv missing required columns: ", wanted.as_str());
            let b = concat_str(a.as_str(), ". Available: ");
            return Err(Error::ShipDataValidation { message: concat_str(b.as_str(), available.as_str()) });
        },
    };
    proof {
        assert(resolved_columns(hs) == Some(c));
    }
    let mut rows: Vec<ShipRow> = Vec::new();
    let mut i: usize = 0;
    while i < records.len()
        invariant
            i <= records@.len(),
            recs == records@.map_values(|rec: Vec<String>| texts(rec@)),
            rows@.len() == i,
            forall|k: int| 0 <= k < i ==> row_of(#[trigger] rows@[k], recs[k], c, recs.take(k)),
        decreases records@.len() - i,
    {
        let rec = &records[i];
        proof {
            assert(recs[i as int] == texts(rec@));
        }
        let name = match field_of(rec, c.name) {
            Some(n) => n,
            None => String::new(),
        };
        let key = normalize_name(name.as_str());
        let duplicate = key_seen(&rows, &key);
        let row = ShipRow {
            name,
            base_mass_kg: field_of(rec, c.base_mass_kg),
            specific_heat: field_of(rec, c.specific_heat),
            fuel_capacity: field_of(rec, c.fuel_capacity),
            cargo_capacity: field_of(rec, c.cargo_capacity),
            key,
            duplicate,
        };
        proof {
            let earlier = recs.take(i as int);
            assert forall|j: int| 0 <= j < earlier.len() implies #[trigger] ship_key(earlier[j], c) == rows@[j].key@ by {
                assert(earlier[j] == recs[j]);
                assert(row_of(rows@[j], recs[j], c, recs.take(j)));
            }
            if duplicate {
                let j = choose|j: int| 0 <= j < rows@.len() && #[trigger] rows@[j].key@ == key@;
                assert(ship_key(earlier[j], c) == ship_key(recs[i as int], c));
            }
            if exists|j: int| 0 <= j < earlier.len() && #[trigger] ship_key(earlier[j], c) == ship_key(recs[i as int], c) {
                let j = choose|j: int| 0 <= j < earlier.len() && #[trigger] ship_key(earlier[j], c) == ship_key(recs[i as int], c);
                assert(rows@[j].key@ == key@);
            }
            assert(row_of(row, recs[i as int], c, earlier));
        }
        let ghost before = rows@;
        rows.push(row);
        proof {
            assert forall|k: int| 0 <= k < i + 1 implies row_of(#[trigger] rows@[k], recs[k], c, recs.take(k)) by {
                if k < i {
                    assert(rows@[k] == before[k]);
                }
            }
        }
        i = i + 1;
    }
    Ok(ShipTable { rows, error })
}

} // verus!
