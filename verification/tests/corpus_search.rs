use berlin_core::coordinates::Coordinates;
use berlin_core::graph::ResultsGraph;
use berlin_core::ingest::{parse_data_blocks, parse_data_list};
use berlin_core::location::{AnyLocation, CsvLocode, LocData};
use berlin_core::locations_db::{top_ranked, LocationsDb};
use berlin_core::search::{Offset, Score, SearchTerm};
use std::collections::HashMap;

fn record(c: &str, i: &str, d: &[(&str, &str)]) -> AnyLocation {
    AnyLocation {
        c: c.to_string(),
        i: i.to_string(),
        d: d.iter().map(|(k, v)| (k.to_string(), v.to_string())).collect(),
    }
}

fn country(id: &str, name: &str, short: &str, alpha3: &str) -> AnyLocation {
    record(
        "ISO-3166-1",
        id,
        &[("name", name), ("short", short), ("alpha2", id), ("alpha3", alpha3), ("continent", "XX")],
    )
}

fn subdivision(state: &str, code: &str, name: &str) -> AnyLocation {
    record(
        "ISO-3166-2",
        &format!("{}:{}", state, code),
        &[("name", name), ("supercode", state), ("subcode", code), ("level", "region")],
    )
}

fn place(state: &str, code: &str, name: &str, subdivision: Option<&str>) -> AnyLocation {
    let mut d = vec![("name", name), ("supercode", state), ("subcode", code)];
    if let Some(s) = subdivision {
        d.push(("subdivision_code", s));
    }
    d.push(("function_code", "1-------"));
    record("UN-LOCODE", &format!("{}:{}", state, code), &d)
}

fn airport(iata: &str, name: &str, state: &str, region: &str) -> AnyLocation {
    record(
        "IATA",
        iata,
        &[
            ("name", name),
            ("iata", iata),
            ("type", "large_airport"),
            ("country", state),
            ("region", region),
            ("y", "40.6"),
            ("x", "-73.7"),
        ],
    )
}

fn records() -> Vec<AnyLocation> {
    vec![
        country("GB", "United Kingdom of Great Britain and Northern Ireland", "United Kingdom", "GBR"),
        country("FR", "France", "France", "FRA"),
        country("US", "United States of America", "USA", "USA"),
        country("BY", "Belarus", "Belarus", "BLR"),
        subdivision("GB", "ENG", "England"),
        subdivision("US", "NY", "New York"),
        subdivision("US", "CT", "Connecticut"),
        place("GB", "LON", "London", Some("ENG")),
        place("US", "NLO", "New London", Some("CT")),
        place("FR", "PAR", "Paris", None),
        place("US", "NYC", "New York", Some("NY")),
        place("GB", "IOM", "Isle of Man", None),
        place("FR", "LTQ", "Le Touquet", None),
        airport("JFK", "John F Kennedy International Airport", "US", "US-NY"),
    ]
}

fn corpus() -> LocationsDb {
    let (db, skipped) = parse_data_blocks(records()).unwrap();
    assert!(skipped.is_empty());
    db.mk_fst()
}

fn query(db: &LocationsDb, raw: &str, limit: usize, ld: u32) -> SearchTerm {
    SearchTerm::from_raw_query(raw.to_string(), None, limit, ld, &db.pool)
}

fn search(db: &LocationsDb, raw: &str, limit: usize, ld: u32) -> Vec<(String, i64)> {
    let st = query(db, raw, limit, ld);
    db.search(&st).into_iter().map(|(k, s)| (db.pool.text(k).clone(), s.score)).collect()
}

fn hit(key: &str, score: i64) -> (String, i64) {
    (key.to_string(), score)
}

#[test]
fn empty_corpus_finds_nothing() {
    let db = LocationsDb::new().mk_fst();
    assert!(search(&db, "london", 5, 2).is_empty());
    assert!(db.retrieve("UN-LOCODE-gb:lon").is_none());
}

#[test]
fn retrieve_by_key() {
    let db = corpus();
    let l = db.retrieve("UN-LOCODE-gb:lon").unwrap();
    assert_eq!(l.get_names().to_vec(), vec!["london"]);
    assert!(db.retrieve("UN-LOCODE-gb:xxx").is_none());
    assert!(db.retrieve("london").is_none());
    assert_eq!(db.all.len(), 14);
    assert_eq!(db.keys.len(), 14);
}

#[test]
fn later_entity_replaces_earlier_one_with_its_key() {
    let mut all = records();
    all.push(place("GB", "LON", "Londinium", None));
    let (db, _) = parse_data_blocks(all).unwrap();
    let db = db.mk_fst();
    assert_eq!(db.all.len(), 14);
    assert_eq!(db.retrieve("UN-LOCODE-gb:lon").unwrap().get_names().to_vec(), vec!["londinium"]);
    assert_eq!(search(&db, "londinium", 5, 2), vec![hit("UN-LOCODE-gb:lon", 1009)]);
    assert!(search(&db, "london", 5, 0).iter().all(|(k, _)| k != "UN-LOCODE-gb:lon"));
}

#[test]
fn names_of_countries_and_subdivisions_by_code() {
    let db = corpus();
    assert_eq!(db.state_name("fr"), Some(&"france".to_string()));
    assert_eq!(
        db.state_name("gb"),
        Some(&"united kingdom of great britain and northern ireland".to_string())
    );
    assert_eq!(db.state_name("zz"), None);
    assert_eq!(db.state_name("lon"), None);
    assert_eq!(db.subdiv_name("gb", "eng"), Some(&"england".to_string()));
    assert_eq!(db.subdiv_name("gb", "ny"), None);
}

#[test]
fn word_index_files_words_codes_and_names() {
    let db = corpus();
    let keys_of = |word: &str| -> Vec<String> {
        let w = db.pool.from_existing(word).unwrap();
        db.by_word_map.get(&w).map(|l| l.iter().map(|k| db.pool.text(*k).clone()).collect()).unwrap_or_default()
    };
    assert_eq!(keys_of("london"), vec!["UN-LOCODE-gb:lon", "UN-LOCODE-us:nlo"]);
    assert_eq!(keys_of("new london"), vec!["UN-LOCODE-us:nlo"]);
    assert_eq!(keys_of("lon"), vec!["UN-LOCODE-gb:lon"]);
    assert_eq!(keys_of("york"), vec!["ISO-3166-2-us:ny", "UN-LOCODE-us:nyc"]);
    assert_eq!(keys_of("gb"), vec!["ISO-3166-1-gb"]);
    assert_eq!(keys_of("usa"), vec!["ISO-3166-1-us"]);
    // a word of three bytes in a name is no word of the index
    assert_eq!(keys_of("new"), Vec::<String>::new());
    assert_eq!(keys_of("of"), Vec::<String>::new());
}

#[test]
fn word_index_is_sound_and_the_transducer_holds_its_words() {
    let db = corpus();
    for (_, keys) in db.by_word_map.iter() {
        assert!(!keys.is_empty());
        for k in keys {
            assert!(db.all.contains_key(k));
        }
    }
    assert_eq!(db.fst.len(), db.by_word_map.len());
    assert_eq!(db.by_word_vec.len(), db.by_word_map.len());
    for (i, (word, keys)) in db.by_word_vec.iter().enumerate() {
        assert_eq!(db.fst.get(word), Some(i as u64));
        let w = db.pool.from_existing(word).unwrap();
        assert_eq!(db.by_word_map.get(&w), Some(keys));
        if i > 0 {
            assert!(db.by_word_vec[i - 1].0.as_bytes() < word.as_bytes());
        }
    }
    assert_eq!(db.fst.get("nowhere"), None);
}

#[test]
fn every_key_parses_back() {
    let db = corpus();
    for (k, l) in db.all.iter() {
        assert_eq!(db.pool.text(*k), &l.key);
        assert_eq!(
            berlin_core::location::split_key(&l.key),
            Some((l.encoding.clone(), l.id.clone()))
        );
    }
}

#[test]
fn london_by_name() {
    let db = corpus();
    // the place named london, then the place with the word london in its name
    assert_eq!(
        search(&db, "london", 5, 2),
        vec![hit("UN-LOCODE-gb:lon", 1006), hit("UN-LOCODE-us:nlo", 906)]
    );
    assert_eq!(search(&db, "london", 1, 2), vec![hit("UN-LOCODE-gb:lon", 1006)]);
    assert!(search(&db, "london", 0, 2).is_empty());
}

#[test]
fn london_england_is_lifted_by_its_subdivision() {
    let db = corpus();
    let r = search(&db, "london england", 5, 2);
    // england scores 1007, a third of which lifts london from 1006
    assert_eq!(r[0], hit("UN-LOCODE-gb:lon", 1006 + 1007 / 3));
    assert_eq!(r[1], hit("ISO-3166-2-gb:eng", 1007));
    assert_eq!(r[2], hit("UN-LOCODE-us:nlo", 906));
    assert_eq!(r.len(), 3);
}

#[test]
fn pariss_finds_paris_within_one_edit() {
    let db = corpus();
    assert_eq!(search(&db, "pariss", 5, 1), vec![hit("UN-LOCODE-fr:par", 833)]);
    assert_eq!(search(&db, "pariss", 5, 2), vec![hit("UN-LOCODE-fr:par", 833)]);
}

#[test]
fn distance_zero_recalls_by_prefix_only() {
    let db = corpus();
    assert!(search(&db, "pariss", 5, 0).is_empty());
    // "pari" begins "paris": soft maximum and twice four
    assert_eq!(search(&db, "pari", 5, 0), vec![hit("UN-LOCODE-fr:par", 1008)]);
    assert_eq!(search(&db, "paris", 5, 0), vec![hit("UN-LOCODE-fr:par", 1005)]);
}

#[test]
fn short_terms_do_not_search_the_transducer() {
    let db = corpus();
    // "par" is the code of paris, and known
    assert_eq!(search(&db, "par", 5, 2), vec![hit("UN-LOCODE-fr:par", 1003)]);
    // "pai" is unknown, of three bytes, and one edit from "par"
    assert!(search(&db, "pai", 5, 2).is_empty());
    // "lond" has four bytes and begins "london"
    assert_eq!(
        search(&db, "lond", 5, 2),
        vec![hit("UN-LOCODE-gb:lon", 1008), hit("UN-LOCODE-us:nlo", 908)]
    );
}

#[test]
fn codes_with_a_hyphen() {
    let db = corpus();
    let st = query(&db, "GB-LON", 5, 2);
    assert_eq!(st.normalized, "gb-lon");
    let codes: Vec<&str> = st.codes.iter().map(|c| c.term.as_str()).collect();
    assert_eq!(codes, vec!["gb", "lon"]);
    // the country by its code, and the place by its code, lifted by half the country's score
    assert_eq!(
        search(&db, "GB-LON", 5, 2),
        vec![hit("UN-LOCODE-gb:lon", 1003 + 1032 / 2), hit("ISO-3166-1-gb", 1032)]
    );
}

#[test]
fn airport_by_its_code() {
    let db = corpus();
    let r = search(&db, "new york jfk", 10, 2);
    let jfk = r.iter().find(|(k, _)| k == "IATA-jfk").unwrap();
    assert!(jfk.1 >= 1000 + 3);
    // the subdivision named new york lifts the place of that name and the airport in it
    assert_eq!(r[0], hit("UN-LOCODE-us:nyc", 1008 + 1008 / 3));
    assert_eq!(r[1], hit("IATA-jfk", 1003 + 1008 / 3));
    assert_eq!(r[2], hit("ISO-3166-2-us:ny", 1008));
}

#[test]
fn stop_words_find_nothing() {
    let db = corpus();
    let st = query(&db, "the of by", 5, 2);
    // "of" is a piece of a name and "by" is a code; "the" is no text of this corpus
    assert_eq!(st.stop_words, vec!["of", "by"]);
    assert!(st.exact_matches.is_empty());
    assert!(st.codes.is_empty());
    assert!(search(&db, "of by", 5, 2).is_empty());
    assert!(search(&db, "", 5, 2).is_empty());
}

#[test]
fn name_of_several_words_is_an_exact_term() {
    let db = corpus();
    let r = search(&db, "Isle of Man", 5, 2);
    assert_eq!(r[0], hit("UN-LOCODE-gb:iom", 1011));
    let r = search(&db, "new london", 5, 2);
    assert_eq!(r[0], hit("UN-LOCODE-us:nlo", 1010));
}

#[test]
fn query_equal_to_a_name_scores_the_soft_maximum_at_least() {
    let db = corpus();
    for name in ["london", "paris", "new york", "isle of man", "england", "france", "le touquet"] {
        let r = search(&db, name, 20, 2);
        assert!(
            r.iter().any(|(k, s)| *s >= 1000 && db.retrieve(k).unwrap().get_names().get(0) == name),
            "{}",
            name
        );
    }
}

#[test]
fn results_are_ranked_distinct_and_above_the_threshold() {
    let db = corpus();
    for raw in ["london", "new york jfk", "united", "franc", "pariss londom", "GB-LON"] {
        for limit in [1usize, 2, 50] {
            let st = query(&db, raw, limit, 2);
            let r = db.search(&st);
            assert!(r.len() <= limit);
            for i in 0..r.len() {
                assert!(r[i].1.score > 400);
                assert!(db.all.contains_key(&r[i].0));
                for j in i + 1..r.len() {
                    assert_ne!(r[i].0, r[j].0);
                    assert!(!r[j].1.outranks(&r[i].1));
                }
            }
        }
    }
}

#[test]
fn state_filter_keeps_one_country() {
    let db = corpus();
    let st = SearchTerm::from_raw_query("london".to_string(), Some("us".to_string()), 5, 2, &db.pool);
    let r: Vec<String> = db.search(&st).into_iter().map(|(k, _)| db.pool.text(k).clone()).collect();
    assert_eq!(r, vec!["UN-LOCODE-us:nlo"]);
    let st = SearchTerm::from_raw_query("london".to_string(), Some("zz".to_string()), 5, 2, &db.pool);
    assert_eq!(db.search(&st).len(), 2);
}

#[test]
fn recall_gives_each_candidate_once() {
    let db = corpus();
    let st = query(&db, "london londo", 5, 2);
    let c = db.recall(&st);
    let mut keys: Vec<String> = c.iter().map(|k| db.pool.text(*k).clone()).collect();
    keys.sort();
    assert_eq!(keys, vec!["UN-LOCODE-gb:lon", "UN-LOCODE-us:nlo"]);
    let (kept, scores) = db.score_all(&st, &c);
    assert_eq!(kept.len(), 2);
    assert_eq!(scores.len(), 2);
}

#[test]
fn a_very_long_term_falls_back_to_the_prefix() {
    let db = corpus();
    let long = "londonlondonlondonlondonlondonlondonlondonlondonlondonlondonlondonlondon";
    assert!(search(&db, long, 5, 2).is_empty());
}

#[test]
fn rerank_lifts_children_of_strong_parents_only() {
    let db = corpus();
    let key = |text: &str| db.pool.from_existing(text).unwrap();
    let score = |s: i64| Score { score: s, offset: Offset { start: 1, end: 4 } };
    let gb = key("ISO-3166-1-gb");
    let eng = key("ISO-3166-2-gb:eng");
    let lon = key("UN-LOCODE-gb:lon");
    let par = key("UN-LOCODE-fr:par");
    let order = vec![lon, gb, eng, par];
    let mut results = HashMap::new();
    results.insert(lon, score(700));
    results.insert(gb, score(1000));
    results.insert(eng, score(900));
    results.insert(par, score(800));
    let out = ResultsGraph::from_results(&order, results, &db).scores;
    // the greater of 700 + 1000 / 2 and 700 + 900 / 3
    assert_eq!(out[&lon], score(1200));
    // england lies in the united kingdom
    assert_eq!(out[&eng], score(900 + 500));
    assert_eq!(out[&gb], score(1000));
    // france is no candidate
    assert_eq!(out[&par], score(800));
    assert_eq!(out.len(), 4);

    // an airport is lifted by its country, and by the subdivision of its region
    let jfk = key("IATA-jfk");
    let us = key("ISO-3166-1-us");
    let ny = key("ISO-3166-2-us:ny");
    let mut results = HashMap::new();
    results.insert(jfk, score(1003));
    results.insert(us, score(1032));
    let out = ResultsGraph::from_results(&vec![jfk, us], results, &db).scores;
    assert_eq!(out[&jfk], score(1003 + 1032 / 2));
    assert_eq!(out[&us], score(1032));
    let mut results = HashMap::new();
    results.insert(jfk, score(1003));
    results.insert(ny, score(1008));
    let out = ResultsGraph::from_results(&vec![ny, jfk], results, &db).scores;
    assert_eq!(out[&jfk], score(1003 + 1008 / 3));

    let mut results = HashMap::new();
    results.insert(lon, score(600));
    results.insert(gb, score(1000));
    let out = ResultsGraph::from_results(&vec![lon, gb], results, &db).scores;
    // 600 is not above the threshold
    assert_eq!(out[&lon], score(600));

    let mut results = HashMap::new();
    results.insert(lon, score(1000));
    results.insert(gb, score(600));
    let out = ResultsGraph::from_results(&vec![lon, gb], results, &db).scores;
    assert_eq!(out[&lon], score(1000));
}

#[test]
fn top_ranked_sorts_and_cuts() {
    let score = |s: i64, start: usize| Score { score: s, offset: Offset { start, end: start + 2 } };
    let keys = vec![10usize, 11, 12, 13];
    let mut scores = HashMap::new();
    scores.insert(10, score(500, 0));
    scores.insert(11, score(900, 3));
    scores.insert(12, score(900, 1));
    scores.insert(13, score(700, 0));
    assert_eq!(
        top_ranked(&keys, &scores, 3),
        vec![(12, score(900, 1)), (11, score(900, 3)), (13, score(700, 0))]
    );
    assert_eq!(top_ranked(&keys, &scores, 10).len(), 4);
    assert!(top_ranked(&keys, &scores, 0).is_empty());
    assert!(top_ranked(&Vec::new(), &HashMap::new(), 3).is_empty());
}

#[test]
fn coordinates_are_set_by_key() {
    let (db, _) = parse_data_blocks(records()).unwrap();
    let row = |country: &str, code: &str, coordinates: Option<&str>| CsvLocode {
        country: country.to_string(),
        subcode: code.to_string(),
        name: String::new(),
        name_wo_diacritics: String::new(),
        subdivision_code: String::new(),
        status: String::new(),
        function: String::new(),
        date: String::new(),
        iata_code: String::new(),
        coordinates: coordinates.map(|c| c.to_string()),
    };
    let rows = vec![
        row("GB", "LON", Some("0000N 00000E")),
        row("XX", "YYY", Some("5130N 00008W")),
        row("FR", "PAR", Some("here")),
        row("US", "NYC", None),
        row("GB", "ENG", Some("5130N 00008W")),
        row("GB", "LON", Some("5130N 00008W")),
    ];
    let (db, unplaced) = parse_data_list(db, &rows);
    assert_eq!(unplaced, vec![1, 4]);
    let db = db.mk_fst();
    let coordinates = |key: &str| match &db.retrieve(key).unwrap().data {
        LocData::Locd(d) => d.coordinates,
        other => panic!("not a place: {:?}", other),
    };
    assert_eq!(coordinates("UN-LOCODE-gb:lon"), Some(Coordinates { lat: 3090, lon: -8 }));
    assert_eq!(coordinates("UN-LOCODE-fr:par"), None);
    assert_eq!(coordinates("UN-LOCODE-us:nyc"), None);
    assert_eq!(search(&db, "london", 1, 2), vec![hit("UN-LOCODE-gb:lon", 1006)]);
    let mut db = db;
    assert!(!db.set_coordinates("ISO-3166-1-gb", None));
    assert!(!db.set_coordinates("nowhere", None));
    assert!(db.set_coordinates("UN-LOCODE-gb:lon", None));
}

#[test]
fn unknown_schema_stops_the_ingest() {
    let mut all = records();
    all.insert(3, record("ISO-0000", "X", &[("name", "x")]));
    all.insert(1, record("ISO-3166-1", "DE", &[("name", "Germany")]));
    assert_eq!(parse_data_blocks(all).err(), Some(4));
}

#[test]
fn records_that_cannot_be_decoded_are_skipped() {
    let mut all = records();
    all.insert(1, record("ISO-3166-1", "DE", &[("name", "Germany")]));
    all.push(record("IATA", "QQQ", &[("name", "x")]));
    let (db, skipped) = parse_data_blocks(all).unwrap();
    assert_eq!(skipped, vec![1, 15]);
    assert_eq!(db.all.len(), 14);
    assert!(db.retrieve("ISO-3166-1-de").is_none());
}

#[test]
fn a_term_too_long_for_the_automaton_still_recalls_by_prefix() {
    let long = "abcdefghijklmnopqrstuvwxyzabcdefghijklmnopqrstuvwxyzabcdefghijklmnopqrstuvwxyz";
    let mut all = records();
    all.push(place("FR", "LNG", &format!("{}ville", long), None));
    let db = parse_data_blocks(all).unwrap().0.mk_fst();
    assert!(fst::automaton::Levenshtein::new(long, 2).is_err());
    let found = search(&db, long, 5, 2);
    assert_eq!(found, vec![hit("UN-LOCODE-fr:lng", 1000 + 2 * long.len() as i64)]);
    let found = search(&db, long, 5, 0);
    assert_eq!(found, vec![hit("UN-LOCODE-fr:lng", 1000 + 2 * long.len() as i64)]);
}

#[test]
fn rows_add_their_keys_once() {
    let db = corpus();
    let row_of = |word: &str| db.fst.get(word).unwrap();
    let mut out = Vec::new();
    let mut seen = std::collections::HashSet::new();
    db.add_rows(&vec![row_of("london"), row_of("lon"), 1_000_000, row_of("paris")], &mut out, &mut seen);
    let keys: Vec<&String> = out.iter().map(|k| db.pool.text(*k)).collect();
    assert_eq!(keys, vec!["UN-LOCODE-gb:lon", "UN-LOCODE-us:nlo", "UN-LOCODE-fr:par"]);
    assert_eq!(seen.len(), 3);
}

#[test]
fn recall_agrees_with_a_plain_scan_of_the_words() {
    let db = corpus();
    for term in ["lond", "pariss", "yorks", "franc", "unite", "kindom", "airpor", "touque", "zzzz"] {
        for ld in 0..3u32 {
            let st = query(&db, term, 50, ld);
            assert_eq!(st.not_exact_matches.len(), 1);
            let mut found: Vec<usize> = db.recall(&st);
            found.sort();
            let mut expected: Vec<usize> = Vec::new();
            for (word, keys) in db.by_word_vec.iter() {
                if word.starts_with(term) || strsim::levenshtein(word, term) <= ld as usize {
                    for k in keys {
                        if !expected.contains(k) {
                            expected.push(*k);
                        }
                    }
                }
            }
            expected.sort();
            assert_eq!(found, expected, "{} {}", term, ld);
        }
    }
}
