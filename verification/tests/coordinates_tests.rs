use berlin_core::coordinates::{coordinate_parser, Coordinates};
use berlin_core::location::CsvLocode;

fn row(country: &str, subcode: &str, subdivision: &str, coordinates: Option<&str>) -> CsvLocode {
    CsvLocode {
        country: country.to_string(),
        subcode: subcode.to_string(),
        name: "Name".to_string(),
        name_wo_diacritics: "Name".to_string(),
        subdivision_code: subdivision.to_string(),
        status: "AI".to_string(),
        function: "1-------".to_string(),
        date: "0501".to_string(),
        iata_code: "".to_string(),
        coordinates: coordinates.map(|c| c.to_string()),
    }
}

#[test]
fn parses_north_east() {
    assert_eq!(
        coordinate_parser("5130N 00008E"),
        Some((12, Coordinates { lat: 51 * 60 + 30, lon: 8 }))
    );
}

#[test]
fn parses_south_west_as_negative() {
    assert_eq!(
        coordinate_parser("3355S 15112W"),
        Some((12, Coordinates { lat: -(33 * 60 + 55), lon: -(151 * 60 + 12) }))
    );
}

#[test]
fn minutes_may_have_one_to_three_digits() {
    assert_eq!(coordinate_parser("515N 0000E"), Some((10, Coordinates { lat: 51 * 60 + 5, lon: 0 })));
    assert_eq!(
        coordinate_parser("51305N 000123E"),
        Some((14, Coordinates { lat: 51 * 60 + 305, lon: 123 }))
    );
    assert_eq!(coordinate_parser("513055N 00008E"), None);
    assert_eq!(coordinate_parser("51N 00008E"), None);
}

#[test]
fn several_blanks_and_a_tail_are_accepted() {
    assert_eq!(
        coordinate_parser("5130N \t 00008E tail"),
        Some((14, Coordinates { lat: 3090, lon: 8 }))
    );
}

#[test]
fn rejects_malformed_coordinates() {
    assert_eq!(coordinate_parser(""), None);
    assert_eq!(coordinate_parser("5130N00008E"), None);
    assert_eq!(coordinate_parser("5130X 00008E"), None);
    assert_eq!(coordinate_parser("5130N 00008N"), None);
    assert_eq!(coordinate_parser("5130N 008E"), None);
    assert_eq!(coordinate_parser("5130N"), None);
    assert_eq!(coordinate_parser("a130N 00008E"), None);
}

#[test]
fn csv_row_keys() {
    let r = row("GB", "LON", "LND", None);
    assert_eq!(r.key(), "UN-LOCODE-gb:lon");
    assert_eq!(r.subdiv_key(), "ISO-3166-2-gb:lnd");
    assert_eq!(r.country_key(), "ISO-3166-1-gb");
}

#[test]
fn csv_row_coordinates() {
    assert_eq!(
        row("GB", "LON", "LND", Some("5130N 00008W")).parse_coordinates(),
        Some(Coordinates { lat: 3090, lon: -8 })
    );
    assert_eq!(row("GB", "LON", "LND", Some("nowhere")).parse_coordinates(), None);
    assert_eq!(row("GB", "LON", "LND", None).parse_coordinates(), None);
}

#[test]
fn csv_row_from_fields() {
    let f = |pairs: &[(&str, &str)]| -> Vec<(String, String)> {
        pairs.iter().map(|(k, v)| (k.to_string(), v.to_string())).collect()
    };
    let r = CsvLocode::from_fields(&f(&[
        ("country", "GB"),
        ("subcode", "LON"),
        ("name", "London"),
        ("coordinates", "5130N 00008W"),
    ]))
    .unwrap();
    assert_eq!(r.country, "GB");
    assert_eq!(r.subcode, "LON");
    assert_eq!(r.name, "London");
    assert_eq!(r.status, "");
    assert_eq!(r.iata_code, "");
    assert_eq!(r.coordinates, Some("5130N 00008W".to_string()));
    let r = CsvLocode::from_fields(&f(&[("country", "GB"), ("subcode", "LON")])).unwrap();
    assert_eq!(r.coordinates, None);
    match CsvLocode::from_fields(&f(&[("subcode", "LON")])) {
        Err(berlin_core::location::DecodeError::MissingField { field }) => assert_eq!(field, "country"),
        other => panic!("{:?}", other),
    }
    match CsvLocode::from_fields(&f(&[("country", "GB")])) {
        Err(berlin_core::location::DecodeError::MissingField { field }) => assert_eq!(field, "subcode"),
        other => panic!("{:?}", other),
    }
}
