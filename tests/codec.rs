use digipin::cell::{cell_at, grid_index, CellIndex, GRID_POWER};
use digipin::decode::decode_cell;
use digipin::encode::encode_cell;
use digipin::error::CodeError;
use digipin::geometry::{cell_bounds, cell_center, decode_bounds, decode_center, GridPoint};
use digipin::grid::{find_char_in_grid, grid_symbol};

const MIN_LAT: f64 = 2.5;
const MAX_LAT: f64 = 38.5;
const MIN_LON: f64 = 63.5;
const MAX_LON: f64 = 99.5;
const SPAN: f64 = 36.0;

fn scaled(frac: f64) -> u64 {
    (frac * GRID_POWER as f64).floor() as u64
}

fn encode(lat: f64, lon: f64) -> String {
    let cell = cell_at(scaled((MAX_LAT - lat) / SPAN), scaled((lon - MIN_LON) / SPAN));
    encode_cell(cell)
}

fn to_degrees(p: GridPoint) -> (f64, f64) {
    let half_cells = 2.0 * GRID_POWER as f64;
    (
        MAX_LAT - (p.lat as f64 / half_cells) * SPAN,
        MIN_LON + (p.lon as f64 / half_cells) * SPAN,
    )
}

fn decode(code: &str) -> (f64, f64) {
    to_degrees(decode_center(code).unwrap())
}

#[test]
fn test_encode_decode_roundtrip() {
    let start_lat = 28.6139;
    let start_lon = 77.2090;

    let digipin = encode(start_lat, start_lon);
    let (lat, lon) = decode(&digipin);

    assert!((lat - start_lat).abs() < 0.01);
    assert!((lon - start_lon).abs() < 0.01);
}

#[test]
fn test_boundary_roundtrip() {
    let half_cell = (SPAN / (GRID_POWER as f64)) / 2.0;
    let corners = [
        (MIN_LAT, MIN_LON),
        (MIN_LAT, MAX_LON),
        (MAX_LAT, MIN_LON),
        (MAX_LAT, MAX_LON),
    ];
    for &(orig_lat, orig_lon) in &corners {
        let digipin = encode(orig_lat, orig_lon);
        let (lat, lon) = decode(&digipin);
        assert!((lat - orig_lat).abs() <= half_cell + 1e-10);
        assert!((lon - orig_lon).abs() <= half_cell + 1e-10);
    }
}

#[test]
fn encodes_new_delhi() {
    assert_eq!(encode(28.6139, 77.2090), "39J-438-TJC7");
    assert_eq!(encode_cell(CellIndex { lat: 287953, lon: 399303 }), "39J-438-TJC7");
}

#[test]
fn decodes_new_delhi_cell() {
    assert_eq!(decode_cell("39J-438-TJC7"), Ok(CellIndex { lat: 287953, lon: 399303 }));
}

#[test]
fn encodes_corner_cells() {
    assert_eq!(encode(MAX_LAT, MIN_LON), "FFF-FFF-FFFF");
    assert_eq!(encode(MAX_LAT, MAX_LON), "888-888-8888");
    assert_eq!(encode(MIN_LAT, MIN_LON), "LLL-LLL-LLLL");
    assert_eq!(encode(MIN_LAT, MAX_LON), "TTT-TTT-TTTT");
}

#[test]
fn round_trip_stays_within_half_cell() {
    let half_cell = SPAN / (GRID_POWER as f64) / 2.0;
    let points = [(19.0760, 72.8777), (12.9716, 77.5946), (2.5001, 99.4999), (38.4999, 63.5001)];
    for &(lat, lon) in &points {
        let (dlat, dlon) = decode(&encode(lat, lon));
        assert!((dlat - lat).abs() <= half_cell + 1e-10);
        assert!((dlon - lon).abs() <= half_cell + 1e-10);
    }
    assert_eq!(encode(19.0760, 72.8777), "4FK-595-8823");
}

#[test]
fn every_cell_index_round_trips() {
    let samples = [0u32, 1, 2, 3, 4, 255, 256, 287953, 399303, 699050, GRID_POWER - 1];
    for &lat in &samples {
        for &lon in &samples {
            let cell = CellIndex { lat, lon };
            assert_eq!(decode_cell(&encode_cell(cell)), Ok(cell));
        }
    }
}

#[test]
fn separators_are_ignored() {
    let grouped = decode_cell("39J-438-TJC7");
    assert_eq!(decode_cell("39J438TJC7"), grouped);
    assert_eq!(decode_cell("-3-9J4--38TJC7-"), grouped);
    assert_eq!(decode_center("39J438TJC7"), decode_center("39J-438-TJC7"));
    assert_eq!(decode_bounds("3-9-J-4-3-8-T-J-C-7"), decode_bounds("39J-438-TJC7"));
}

#[test]
fn foreign_character_is_named() {
    assert_eq!(decode_cell("FCJ-3X9-8273"), Err(CodeError::InvalidCharacter('X')));
    assert_eq!(decode_cell("fCJ-3F9-8273"), Err(CodeError::InvalidCharacter('f')));
    assert_eq!(decode_cell("FCJ 3F9 8273"), Err(CodeError::InvalidCharacter(' ')));
    assert_eq!(decode_cell("FCJ-3é9-8273"), Err(CodeError::InvalidCharacter('é')));
    assert_eq!(decode_cell("FCJ3Z"), Err(CodeError::InvalidCharacter('Z')));
    assert_eq!(decode_cell("0"), Err(CodeError::InvalidCharacter('0')));
}

#[test]
fn length_is_enforced() {
    assert_eq!(decode_cell("FCJ-3F9-827"), Err(CodeError::InvalidLength(9)));
    assert_eq!(decode_cell("FCJ-3F9-82737"), Err(CodeError::InvalidLength(11)));
    assert_eq!(decode_cell("FCJ3F9827377777"), Err(CodeError::InvalidLength(11)));
    assert_eq!(decode_cell(""), Err(CodeError::InvalidLength(0)));
    assert_eq!(decode_cell("---"), Err(CodeError::InvalidLength(0)));
    assert_eq!(decode_center("FCJ"), Err(CodeError::InvalidLength(3)));
    assert_eq!(decode_bounds("FCJ"), Err(CodeError::InvalidLength(3)));
}

#[test]
fn surplus_is_reported_before_foreign_character() {
    assert_eq!(decode_cell("FCJ3F98273X"), Err(CodeError::InvalidLength(11)));
}

#[test]
fn center_is_midpoint_of_bounds() {
    for code in ["39J-438-TJC7", "FFF-FFF-FFFF", "TTT-TTT-TTTT", "4FK-595-8823"] {
        let p = decode_center(code).unwrap();
        let b = decode_bounds(code).unwrap();
        assert_eq!(2 * p.lat, b.north + b.south);
        assert_eq!(2 * p.lon, b.west + b.east);
    }
}

#[test]
fn center_and_bounds_of_a_cell() {
    let cell = CellIndex { lat: 287953, lon: 399303 };
    assert_eq!(cell_center(cell), GridPoint { lat: 575907, lon: 798607 });
    let b = cell_bounds(cell);
    assert_eq!((b.north, b.south, b.west, b.east), (575906, 575908, 798606, 798608));
    let last = CellIndex { lat: GRID_POWER - 1, lon: 0 };
    let b = cell_bounds(last);
    assert_eq!((b.north, b.south, b.west, b.east), (2 * GRID_POWER - 2, 2 * GRID_POWER, 0, 2));
}

#[test]
fn far_edge_is_clamped() {
    assert_eq!(grid_index(0), 0);
    assert_eq!(grid_index(12345), 12345);
    assert_eq!(grid_index(GRID_POWER as u64 - 1), GRID_POWER - 1);
    assert_eq!(grid_index(GRID_POWER as u64), GRID_POWER - 1);
    assert_eq!(grid_index(u64::MAX), GRID_POWER - 1);
    assert_eq!(cell_at(GRID_POWER as u64, 7), CellIndex { lat: GRID_POWER - 1, lon: 7 });
}

#[test]
fn table_lookup_inverts_symbols() {
    let symbols = "FC98J327K456LMPT";
    for (i, c) in symbols.chars().enumerate() {
        let (row, col) = ((i / 4) as u32, (i % 4) as u32);
        assert_eq!(grid_symbol(row, col), c);
        assert_eq!(find_char_in_grid(c), Ok((row as u8, col as u8)));
    }
    assert_eq!(find_char_in_grid('-'), Err(CodeError::InvalidCharacter('-')));
    assert_eq!(find_char_in_grid('A'), Err(CodeError::InvalidCharacter('A')));
}
