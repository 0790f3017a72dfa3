use berlin_core::intern::Interner;
use berlin_core::location::{
    extract_field, is_known_schema, lookup, split_key, state_key, subdiv_key, Airport, AirportRaw, AnyLocation,
    DecodeError, LocData, Location, Locode, State, Subdivision,
};
use berlin_core::search::{Offset, Score, SearchTerm};

fn fields(pairs: &[(&str, &str)]) -> Vec<(String, String)> {
    pairs.iter().map(|(k, v)| (k.to_string(), v.to_string())).collect()
}

fn record(c: &str, i: &str, d: &[(&str, &str)]) -> AnyLocation {
    AnyLocation { c: c.to_string(), i: i.to_string(), d: fields(d) }
}

fn gb() -> AnyLocation {
    record(
        "ISO-3166-1",
        "GB",
        &[
            ("name", "United Kingdom of Great Britain and Northern Ireland"),
            ("short", "United Kingdom"),
            ("alpha2", "GB"),
            ("alpha3", "GBR"),
            ("continent", "EU"),
        ],
    )
}

fn london() -> AnyLocation {
    record(
        "UN-LOCODE",
        "GB:LON",
        &[
            ("name", "London"),
            ("supercode", "GB"),
            ("subcode", "LON"),
            ("subdivision_code", "ENG"),
            ("function_code", "12345---"),
        ],
    )
}

fn jfk() -> AnyLocation {
    record(
        "IATA",
        "JFK",
        &[
            ("name", "John F Kennedy International Airport"),
            ("iata", "JFK"),
            ("type", "large_airport"),
            ("city", "New York"),
            ("country", "US"),
            ("region", "US-NY"),
            ("x", "-73.7789"),
            ("y", "40.6398"),
            ("elevation", "13"),
        ],
    )
}

fn pool_of(texts: &[&str]) -> Interner {
    let mut pool = Interner::new();
    for t in texts {
        pool.intern(t);
    }
    pool
}

fn score(score: i64, start: usize, end: usize) -> Score {
    Score { score, offset: Offset { start, end } }
}

fn missing(e: DecodeError) -> String {
    match e {
        DecodeError::MissingField { field } => field,
        other => panic!("not a missing field: {:?}", other),
    }
}

#[test]
fn lookup_gives_first_field_of_the_name() {
    let f = fields(&[("name", "a"), ("short", "b"), ("name", "c")]);
    assert_eq!(lookup(&f, "name"), Some(&"a".to_string()));
    assert_eq!(lookup(&f, "short"), Some(&"b".to_string()));
    assert_eq!(lookup(&f, "alpha2"), None);
    assert_eq!(extract_field(&f, "short").unwrap(), "b");
    assert_eq!(missing(extract_field(&f, "alpha2").unwrap_err()), "alpha2");
}

#[test]
fn country_is_decoded_and_normalized() {
    let l = Location::from_raw(gb()).unwrap();
    assert_eq!(l.key, "ISO-3166-1-gb");
    assert_eq!(l.encoding, "ISO-3166-1");
    assert_eq!(l.id, "gb");
    match &l.data {
        LocData::St(s) => {
            assert_eq!(s.name, "united kingdom of great britain and northern ireland");
            assert_eq!(s.short, "united kingdom");
            assert_eq!(s.alpha2, "gb");
            assert_eq!(s.alpha3, "gbr");
            assert_eq!(s.continent, "eu");
        }
        other => panic!("not a country: {:?}", other),
    }
    assert_eq!(
        l.get_names().to_vec(),
        vec!["united kingdom of great britain and northern ireland", "united kingdom"]
    );
    assert_eq!(l.get_codes().to_vec(), vec!["gb", "gbr"]);
    assert_eq!(l.words.to_vec(), vec!["united", "kingdom", "great", "britain", "northern", "ireland"]);
    assert_eq!(l.get_state(), "gb");
}

#[test]
fn country_with_a_short_short_name() {
    let l = Location::from_raw(record(
        "ISO-3166-1",
        "US",
        &[
            ("name", "United States of America"),
            ("short", "USA"),
            ("alpha2", "US"),
            ("alpha3", "USA"),
            ("continent", "NA"),
        ],
    ))
    .unwrap();
    assert_eq!(l.get_names().to_vec(), vec!["united states of america"]);
    assert_eq!(l.get_codes().to_vec(), vec!["us", "usa", "usa"]);
    assert_eq!(l.words.to_vec(), vec!["united", "states", "america"]);
}

#[test]
fn country_whose_short_name_is_its_name() {
    let l = Location::from_raw(record(
        "ISO-3166-1",
        "FR",
        &[
            ("name", "France"),
            ("short", "France"),
            ("alpha2", "FR"),
            ("alpha3", "FRA"),
            ("continent", "EU"),
        ],
    ))
    .unwrap();
    assert_eq!(l.get_names().to_vec(), vec!["france"]);
    assert_eq!(l.get_codes().to_vec(), vec!["fr", "fra"]);
    assert_eq!(l.words.to_vec(), vec!["france"]);
}

#[test]
fn subdivision_is_decoded() {
    let l = Location::from_raw(record(
        "ISO-3166-2",
        "GB:ENG",
        &[("name", "England"), ("supercode", "GB"), ("subcode", "ENG"), ("level", "country")],
    ))
    .unwrap();
    assert_eq!(l.key, "ISO-3166-2-gb:eng");
    assert_eq!(l.id, "gb:eng");
    assert_eq!(l.get_names().to_vec(), vec!["england"]);
    assert_eq!(l.get_codes().to_vec(), vec!["eng"]);
    assert_eq!(l.get_state(), "gb");
    match &l.data {
        LocData::Subdv(sd) => {
            let k = sd.subdiv_key();
            assert_eq!(k.state, "gb");
            assert_eq!(k.subcode, "eng");
            assert_eq!(sd.level, "country");
        }
        other => panic!("not a subdivision: {:?}", other),
    }
}

#[test]
fn locode_is_decoded_with_optional_fields() {
    let l = Location::from_raw(london()).unwrap();
    assert_eq!(l.key, "UN-LOCODE-gb:lon");
    assert_eq!(l.words.to_vec(), vec!["london"]);
    match &l.data {
        LocData::Locd(d) => {
            assert_eq!(d.name, "london");
            assert_eq!(d.supercode, "gb");
            assert_eq!(d.subcode, "lon");
            assert_eq!(d.subdivision_name, None);
            assert_eq!(d.subdivision_code, Some("eng".to_string()));
            assert_eq!(d.function_code, "12345---");
            assert_eq!(d.coordinates, None);
        }
        other => panic!("not a place: {:?}", other),
    }
}

#[test]
fn airport_is_decoded() {
    let l = Location::from_raw(jfk()).unwrap();
    assert_eq!(l.key, "IATA-jfk");
    assert_eq!(l.words.to_vec(), vec!["john", "kennedy", "international", "airport"]);
    match &l.data {
        LocData::Airp(a) => {
            assert_eq!(a.name, "john f kennedy international airport");
            assert_eq!(a.iata, "jfk");
            assert_eq!(a.airport_type, "large_airport");
            assert_eq!(a.city, Some("new york".to_string()));
            assert_eq!(a.country, "us");
            assert_eq!(a.region, "us-ny");
            assert_eq!(a.x, "-73.7789");
            assert_eq!(a.y, "40.6398");
            assert_eq!(a.elevation, Some(13));
        }
        other => panic!("not an airport: {:?}", other),
    }
    assert_eq!(l.get_codes().to_vec(), vec!["jfk"]);
    assert_eq!(l.get_state(), "us");
}

#[test]
fn only_four_schemas_are_known() {
    for tag in ["ISO-3166-1", "ISO-3166-2", "UN-LOCODE", "IATA"] {
        assert!(is_known_schema(tag));
    }
    for tag in ["ISO-9999", "", "iata", "ISO-3166-1 ", "IATA-"] {
        assert!(!is_known_schema(tag));
    }
}

#[test]
fn first_missing_field_is_the_error() {
    let r = Location::from_raw(record("ISO-3166-1", "GB", &[("name", "x"), ("alpha2", "GB")]));
    assert_eq!(missing(r.unwrap_err()), "short");
    let r = Location::from_raw(record("ISO-3166-2", "GB:ENG", &[("name", "x")]));
    assert_eq!(missing(r.unwrap_err()), "supercode");
    let r = Location::from_raw(record(
        "UN-LOCODE",
        "GB:LON",
        &[("name", "x"), ("supercode", "GB"), ("subcode", "LON")],
    ));
    assert_eq!(missing(r.unwrap_err()), "function_code");
    let r = Location::from_raw(record("IATA", "JFK", &[("name", "x"), ("iata", "JFK")]));
    assert_eq!(missing(r.unwrap_err()), "type");
    assert_eq!(missing(State::from_raw(&fields(&[])).unwrap_err()), "name");
    assert_eq!(missing(Subdivision::from_raw(&fields(&[])).unwrap_err()), "name");
    assert_eq!(missing(Locode::from_raw(&fields(&[])).unwrap_err()), "name");
    assert_eq!(missing(AirportRaw::from_fields(&fields(&[])).unwrap_err()), "name");
}

#[test]
fn bad_elevation_is_an_error() {
    let mut r = jfk();
    r.d.pop();
    r.d.push(("elevation".to_string(), "high".to_string()));
    assert!(matches!(Location::from_raw(r), Err(DecodeError::BadElevation)));
    let raw = AirportRaw::from_fields(&jfk().d).unwrap();
    assert_eq!(Airport::from_raw(raw).unwrap().elevation, Some(13));
    let mut r = jfk();
    r.d.pop();
    match Location::from_raw(r).unwrap().data {
        LocData::Airp(a) => assert_eq!(a.elevation, None),
        other => panic!("not an airport: {:?}", other),
    }
}

#[test]
fn parent_boost_by_shape() {
    let country = Location::from_raw(gb()).unwrap();
    let place = Location::from_raw(london()).unwrap();
    let airport = Location::from_raw(jfk()).unwrap();
    let subdivision = Location::from_raw(record(
        "ISO-3166-2",
        "GB:ENG",
        &[("name", "England"), ("supercode", "GB"), ("subcode", "ENG"), ("level", "country")],
    ))
    .unwrap();
    assert_eq!(country.parent_boost(1033), 516);
    assert_eq!(subdivision.parent_boost(1007), 335);
    assert_eq!(place.parent_boost(1007), 251);
    assert_eq!(airport.parent_boost(1007), 0);
    assert_eq!(country.parent_boost(-3), -1);
    assert_eq!(subdivision.parent_boost(-4), -1);
}

#[test]
fn keys_of_parents() {
    let pool = pool_of(&["ISO-3166-1-gb", "ISO-3166-2-gb:eng"]);
    let gb_key = pool.from_existing("ISO-3166-1-gb");
    let eng_key = pool.from_existing("ISO-3166-2-gb:eng");
    assert_eq!(state_key(&pool, "gb"), gb_key);
    assert_eq!(state_key(&pool, "fr"), None);
    assert_eq!(subdiv_key(&pool, "gb", "eng"), eng_key);
    assert_eq!(subdiv_key(&pool, "gb", "sct"), None);
    let country = Location::from_raw(gb()).unwrap();
    assert_eq!(country.get_parents(&pool), (None, None));
    let place = Location::from_raw(london()).unwrap();
    assert_eq!(place.get_parents(&pool), (gb_key, eng_key));
    let airport = Location::from_raw(jfk()).unwrap();
    assert_eq!(airport.get_parents(&pool), (None, None));
    let pool_us = pool_of(&["ISO-3166-2-us:ny", "ISO-3166-1-us"]);
    assert_eq!(
        airport.get_parents(&pool_us),
        (pool_us.from_existing("ISO-3166-1-us"), pool_us.from_existing("ISO-3166-2-us:ny"))
    );
    assert_eq!(airport.get_parents(&pool_of(&["ISO-3166-2-us:ny"])).0, None);
    assert_eq!(airport.get_parents(&pool_of(&["ISO-3166-1-us", "ny"])).1, None);
    let mut no_region = jfk();
    no_region.d[5] = ("region".to_string(), "US".to_string());
    let no_region = Location::from_raw(no_region).unwrap();
    assert_eq!(
        no_region.get_parents(&pool_us),
        (pool_us.from_existing("ISO-3166-1-us"), None)
    );
    let empty = Interner::new();
    assert_eq!(place.get_parents(&empty), (None, None));
}

#[test]
fn subdivision_codes() {
    let pool = pool_of(&["ny"]);
    let country = Location::from_raw(gb()).unwrap();
    assert_eq!(country.get_subdiv(&pool), None);
    assert_eq!(country.data.get_subdiv(), None);
    let place = Location::from_raw(london()).unwrap();
    assert_eq!(place.get_subdiv(&pool), Some("eng".to_string()));
    assert_eq!(place.data.get_subdiv(), Some(&"eng".to_string()));
    let airport = Location::from_raw(jfk()).unwrap();
    assert_eq!(airport.get_subdiv(&pool), Some("ny".to_string()));
    assert_eq!(airport.get_subdiv(&Interner::new()), None);
    assert_eq!(airport.data.get_subdiv(), None);
    assert_eq!(airport.data.get_state(), "us");
}

#[test]
fn key_parses_back_to_schema_and_id() {
    for r in [gb(), london(), jfk()] {
        let l = Location::from_raw(r).unwrap();
        assert_eq!(split_key(&l.key), Some((l.encoding.clone(), l.id.clone())));
    }
    assert_eq!(
        split_key("ISO-3166-2-gb:eng"),
        Some(("ISO-3166-2".to_string(), "gb:eng".to_string()))
    );
    assert_eq!(split_key("IATA-"), Some(("IATA".to_string(), "".to_string())));
    assert_eq!(split_key("IATA"), None);
    assert_eq!(split_key("ISO-3166-1#gb"), None);
    assert_eq!(split_key("ISO-3166-1gb"), None);
    assert_eq!(split_key("gb"), None);
    assert_eq!(split_key("IATA-é"), None);
}

#[test]
fn entity_scores() {
    let pool = pool_of(&["gb", "lon", "london", "united kingdom", "united", "kingdom"]);
    let country = Location::from_raw(gb()).unwrap();
    let place = Location::from_raw(london()).unwrap();
    let q = |raw: &str| SearchTerm::from_raw_query(raw.to_string(), None, 5, 2, &pool);
    // a country by its code: soft maximum and the boost of a country code
    assert_eq!(country.search(&q("gb")), Some(score(1032, 0, 2)));
    // by a word of its name: the exact score with the penalty taken off
    assert_eq!(country.search(&q("kingdom")), Some(score(1007 - 100, 0, 7)));
    // a place by its name and by its code
    assert_eq!(place.search(&q("london")), Some(score(1006, 0, 6)));
    assert_eq!(place.search(&q("lon")), Some(score(1003, 0, 3)));
    assert_eq!(place.search(&q("paris")), None);
    // by a misspelt name: one edit in six characters
    assert_eq!(place.search(&q("londom")), Some(score(833, 0, 6)));
}

#[test]
fn state_filter_rules_out_other_countries() {
    let pool = pool_of(&["gb", "fr", "london"]);
    let place = Location::from_raw(london()).unwrap();
    let with = |state: &str| {
        SearchTerm::from_raw_query("london".to_string(), Some(state.to_string()), 5, 2, &pool)
    };
    assert_eq!(place.search(&with("gb")), Some(score(1006, 0, 6)));
    assert_eq!(place.search(&with("fr")), None);
    // an unknown filter is dropped
    assert_eq!(place.search(&with("zz")), Some(score(1006, 0, 6)));
}

#[test]
fn all_texts_hold_what_the_entity_brings() {
    let l = Location::from_raw(london()).unwrap();
    assert_eq!(
        l.all_texts(),
        vec![
            "UN-LOCODE-gb:lon",
            "UN-LOCODE",
            "gb:lon",
            "london",
            "london",
            "gb",
            "lon",
            "eng",
            "12345---",
            "london"
        ]
    );
    assert_eq!(l.get_index_words(), vec!["london", "lon", "london"]);
}

#[test]
fn short_list_holds_strings_in_order() {
    let mut list = berlin_core::small::ShortList::new();
    assert_eq!(list.len(), 0);
    for w in ["a", "b", "c", "d", "e"] {
        list.push(w.to_string());
    }
    assert_eq!(list.len(), 5);
    assert_eq!(list.get(0), "a");
    assert_eq!(list.get(4), "e");
    assert_eq!(list.to_vec(), vec!["a", "b", "c", "d", "e"]);
    let copy = berlin_core::small::ShortList::from_vec(vec!["x".to_string(), "y".to_string()]);
    assert_eq!(copy.to_vec(), vec!["x", "y"]);
}
