use berlin_core::fetch_handler::{fetch, FetchParams, FetchResults, ResLocation};
use berlin_core::ingest::parse_data_blocks;
use berlin_core::location::AnyLocation;
use berlin_core::location_json::LocJson;
use berlin_core::locations_db::LocationsDb;
use berlin_core::search::{Offset, SearchTerm};
use berlin_core::search_handler::{SearchParams, SearchResults, SearchTermJson};

fn record(c: &str, i: &str, d: &[(&str, &str)]) -> AnyLocation {
    AnyLocation {
        c: c.to_string(),
        i: i.to_string(),
        d: d.iter().map(|(k, v)| (k.to_string(), v.to_string())).collect(),
    }
}

fn corpus() -> LocationsDb {
    let records = vec![
        record(
            "ISO-3166-1",
            "GB",
            &[
                ("name", "United Kingdom"),
                ("short", "UK"),
                ("alpha2", "GB"),
                ("alpha3", "GBR"),
                ("continent", "EU"),
            ],
        ),
        record(
            "ISO-3166-2",
            "GB:ENG",
            &[("name", "England"), ("supercode", "GB"), ("subcode", "ENG"), ("level", "country")],
        ),
        record(
            "UN-LOCODE",
            "GB:LON",
            &[
                ("name", "London"),
                ("supercode", "GB"),
                ("subcode", "LON"),
                ("subdivision_code", "ENG"),
                ("function_code", "1"),
            ],
        ),
        record(
            "UN-LOCODE",
            "ZZ:LON",
            &[
                ("name", "Londres"),
                ("supercode", "ZZ"),
                ("subcode", "LON"),
                ("subdivision_code", "QQ"),
                ("function_code", "1"),
            ],
        ),
    ];
    parse_data_blocks(records).unwrap().0.mk_fst()
}

#[test]
fn loc_json_shows_country_and_subdivision() {
    let db = corpus();
    let j = LocJson::from_location(&db, db.retrieve("UN-LOCODE-gb:lon").unwrap());
    assert_eq!(j.key, "UN-LOCODE-gb:lon");
    assert_eq!(j.encoding, "UN-LOCODE");
    assert_eq!(j.id, "gb:lon");
    assert_eq!(j.names, vec!["london"]);
    assert_eq!(j.codes, vec!["lon"]);
    assert_eq!(j.state, ("gb".to_string(), "united kingdom".to_string()));
    assert_eq!(j.subdiv, Some(("eng".to_string(), "england".to_string())));
}

#[test]
fn loc_json_of_unknown_country() {
    let db = corpus();
    let j = LocJson::from_location(&db, db.retrieve("UN-LOCODE-zz:lon").unwrap());
    assert_eq!(j.state, ("zz".to_string(), "#UNKNOWN COUNTRY#".to_string()));
    assert_eq!(j.subdiv, None);
    let j = LocJson::from_location(&db, db.retrieve("ISO-3166-1-gb").unwrap());
    assert_eq!(j.state, ("gb".to_string(), "united kingdom".to_string()));
    assert_eq!(j.subdiv, None);
    assert_eq!(j.codes, vec!["gb", "gbr", "uk"]);
}

#[test]
fn res_location_shows_parent_keys() {
    let db = corpus();
    let r = ResLocation::from_location(db.retrieve("UN-LOCODE-gb:lon").unwrap(), &db.pool, false);
    assert_eq!(r.encoding, "UN-LOCODE");
    assert_eq!(r.id, "gb:lon");
    assert_eq!(r.names, vec!["london"]);
    assert_eq!(r.codes, vec!["lon"]);
    assert_eq!(r.state, Some("ISO-3166-1-gb".to_string()));
    assert_eq!(r.subdiv, Some("ISO-3166-2-gb:eng".to_string()));
    let r = ResLocation::from_location(db.retrieve("ISO-3166-1-gb").unwrap(), &db.pool, true);
    assert_eq!(r.state, Some("ISO-3166-1-gb".to_string()));
    assert_eq!(r.subdiv, None);
    let r = ResLocation::from_location(db.retrieve("ISO-3166-2-gb:eng").unwrap(), &db.pool, true);
    assert_eq!(r.state, Some("ISO-3166-1-gb".to_string()));
    assert_eq!(r.subdiv, Some("ISO-3166-2-gb:eng".to_string()));
    let r = ResLocation::from_location(db.retrieve("UN-LOCODE-zz:lon").unwrap(), &db.pool, true);
    assert_eq!(r.state, None);
    assert_eq!(r.subdiv, None);
}

#[test]
fn fetch_by_key() {
    let db = corpus();
    let params = FetchParams { extended: Some(true) };
    assert!(params.is_extended());
    assert!(!FetchParams { extended: None }.is_extended());
    assert!(!FetchParams { extended: Some(false) }.is_extended());
    let found = fetch(&db, "ISO-3166-2-gb:eng", &params).unwrap();
    assert_eq!(found.id, "gb:eng");
    assert!(fetch(&db, "ISO-3166-2-gb:sct", &params).is_none());
    let answer = FetchResults { time: "1ms".to_string(), result: found };
    assert_eq!(answer.result.names, vec!["england"]);
}

#[test]
fn search_params_defaults() {
    let p = SearchParams { q: "x".to_string(), limit: None, state: None, ld: None };
    assert_eq!(p.get_limit(), 1);
    assert_eq!(p.get_distance(), 2);
    let p = SearchParams { q: "x".to_string(), limit: Some(7), state: None, ld: Some(9) };
    assert_eq!(p.get_limit(), 7);
    assert_eq!(p.get_distance(), 2);
    let p = SearchParams { q: "x".to_string(), limit: Some(0), state: None, ld: Some(0) };
    assert_eq!(p.get_limit(), 0);
    assert_eq!(p.get_distance(), 0);
}

#[test]
fn search_term_json_shows_the_terms() {
    let db = corpus();
    let st = SearchTerm::from_raw_query("London GB xyz".to_string(), Some("gb".to_string()), 3, 5, &db.pool);
    let j = SearchTermJson::from_search_term(st);
    assert_eq!(j.raw, "London GB xyz");
    assert_eq!(j.normalized, "london gb xyz");
    assert!(j.stop_words.is_empty());
    assert_eq!(j.codes, vec!["gb"]);
    assert_eq!(j.exact_matches, vec!["london", "gb"]);
    assert_eq!(j.not_exact_matches, vec!["london gb", "gb xyz", "xyz"]);
    assert_eq!(j.state_filter, Some("gb".to_string()));
    assert_eq!(j.limit, 3);
    assert_eq!(j.levenshtein_distance, 2);
}

#[test]
fn answer_to_a_search() {
    let db = corpus();
    let params = SearchParams { q: "London".to_string(), limit: None, state: None, ld: None };
    let a = SearchResults::answer(&db, params);
    assert_eq!(a.time, "");
    assert_eq!(a.query.normalized, "london");
    assert_eq!(a.query.limit, 1);
    assert_eq!(a.results.len(), 1);
    assert_eq!(a.results[0].loc.key, "UN-LOCODE-gb:lon");
    assert_eq!(a.results[0].score, 1006);
    assert_eq!(a.results[0].offset, Offset { start: 0, end: 6 });
    let params = SearchParams {
        q: "londre".to_string(),
        limit: Some(5),
        state: Some("zz".to_string()),
        ld: Some(1),
    };
    let a = SearchResults::answer(&db, params);
    assert_eq!(a.query.state_filter, Some("zz".to_string()));
    assert_eq!(a.results.len(), 1);
    assert_eq!(a.results[0].loc.key, "UN-LOCODE-zz:lon");
    assert_eq!(a.results[0].score, 1012);
}

#[test]
fn res_location_of_an_airport_shows_both_parents() {
    let records = vec![
        record(
            "ISO-3166-1",
            "US",
            &[
                ("name", "United States"),
                ("short", "USA"),
                ("alpha2", "US"),
                ("alpha3", "USA"),
                ("continent", "NA"),
            ],
        ),
        record(
            "ISO-3166-2",
            "US:NY",
            &[("name", "New York"), ("supercode", "US"), ("subcode", "NY"), ("level", "state")],
        ),
        record(
            "IATA",
            "JFK",
            &[
                ("name", "John F Kennedy International Airport"),
                ("iata", "JFK"),
                ("type", "large_airport"),
                ("country", "US"),
                ("region", "US-NY"),
                ("y", "40.6"),
                ("x", "-73.7"),
            ],
        ),
    ];
    let db = parse_data_blocks(records).unwrap().0.mk_fst();
    let r = ResLocation::from_location(db.retrieve("IATA-jfk").unwrap(), &db.pool, false);
    assert_eq!(r.state, Some("ISO-3166-1-us".to_string()));
    assert_eq!(r.subdiv, Some("ISO-3166-2-us:ny".to_string()));
}
