//! The building of a corpus from decoded records.

use crate::coordinates::{parsed_coordinates, Coordinates};
use crate::intern::Sym;
use crate::location::{
    decodable, is_known_schema, key_text, known_schema, lemma_schemas_differ, locode_encoding,
    normal_field, pairs_of, state_encoding, subdiv_encoding, AnyLocation, CsvLocode, LocData,
    Location,
};
use crate::locations_db::{
    grown, increasing, is_name_of, lemma_names_kept, lemma_names_put, LocationsDb,
};
use crate::normalized;
use crate::text::bytes_of;
use vstd::prelude::*;

verus! {

/// Whether the entity is what the record decodes to.
pub open spec fn taken(r: AnyLocation, l: Location) -> bool {
    &&& l.wf()
    &&& l.encoding@ == r.c@
    &&& l.id@ == normalized(r.i@)
    &&& l.data.decoded_from(r.c@, pairs_of(r.d@))
}

/// Whether the corpus has an entity with the key.
pub open spec fn has_key(db: &LocationsDb, key: Seq<char>) -> bool {
    exists|k: Sym| #[trigger] db.all@.contains_key(k) && db.all@[k].key@ == key
}

/// The key of the entity that a record decodes to.
pub open spec fn key_of(r: AnyLocation) -> Seq<char> {
    key_text(r.c@, normalized(r.i@))
}

/// Whether the entity `l` is what the record at `i` decodes to, and none
/// of the records behind it, up to `n`, decodes to an entity of that key.
pub open spec fn last_of_key(records: Seq<AnyLocation>, n: int, i: int, l: Location) -> bool {
    &&& 0 <= i < n
    &&& taken(records[i], l)
    &&& forall|j: int|
        i < j < n && decodable((#[trigger] records[j]).c@, pairs_of(records[j].d@)) ==> key_of(
            records[j],
        ) != l.key@
}

/// Whether the entity under `k` is what the last of the first `n` records
/// with its key decodes to.
pub open spec fn from_record(db: &LocationsDb, records: Seq<AnyLocation>, n: int, k: Sym) -> bool {
    exists|i: int| #[trigger] last_of_key(records, n, i, db.all@[k])
}

/// Whether the corpus holds the first `n` records: each entity is what
/// the last record with its key decodes to, and each record that can be
/// decoded has an entity under its key.
pub open spec fn holds_records(db: &LocationsDb, records: Seq<AnyLocation>, n: int) -> bool {
    &&& forall|k: Sym| #[trigger] db.all@.contains_key(k) ==> from_record(db, records, n, k)
    &&& forall|i: int|
        0 <= i < n && decodable((#[trigger] records[i]).c@, pairs_of(records[i].d@)) ==> has_key(
            db,
            key_of(records[i]),
        )
}

/// The name that a record gives to the country with a code: the name of
/// the country that it decodes to, if that has the code.
pub open spec fn gives_state_name(r: AnyLocation, code: Seq<char>) -> Option<Seq<char>> {
    if r.c@ == state_encoding() && decodable(r.c@, pairs_of(r.d@)) && normal_field(
        pairs_of(r.d@),
        "alpha2"@,
    ) == Some(code) {
        normal_field(pairs_of(r.d@), "name"@)
    } else {
        None
    }
}

/// The name that a record gives to the subdivision with an id: the name
/// of the subdivision that it decodes to, if that has the id.
pub open spec fn gives_subdiv_name(r: AnyLocation, id: Seq<char>) -> Option<Seq<char>> {
    if r.c@ == subdiv_encoding() && decodable(r.c@, pairs_of(r.d@)) && normalized(r.i@) == id {
        normal_field(pairs_of(r.d@), "name"@)
    } else {
        None
    }
}

/// The name of the country with a code after the first `n` records: the
/// one that the last of them gives that gives one.
pub open spec fn state_name_after(records: Seq<AnyLocation>, n: int, code: Seq<char>) -> Option<
    Seq<char>,
>
    decreases n,
{
    if n <= 0 {
        None
    } else {
        match gives_state_name(records[n - 1], code) {
            Some(name) => Some(name),
            None => state_name_after(records, n - 1, code),
        }
    }
}

/// The name of the subdivision with an id after the first `n` records:
/// the one that the last of them gives that gives one.
pub open spec fn subdiv_name_after(records: Seq<AnyLocation>, n: int, id: Seq<char>) -> Option<
    Seq<char>,
>
    decreases n,
{
    if n <= 0 {
        None
    } else {
        match gives_subdiv_name(records[n - 1], id) {
            Some(name) => Some(name),
            None => subdiv_name_after(records, n - 1, id),
        }
    }
}

/// Whether the corpus holds the names of the first `n` records: for each
/// code the name of the last country decoded with that code, and for each
/// id the name of the last subdivision decoded with that id, and no other
/// name.
pub open spec fn holds_names(db: &LocationsDb, records: Seq<AnyLocation>, n: int) -> bool {
    &&& forall|t: Seq<char>| #[trigger]
        is_name_of(db.pool@, db.state_by_code@, t, state_name_after(records, n, t))
    &&& forall|t: Seq<char>| #[trigger]
        is_name_of(db.pool@, db.subdiv_by_code@, t, subdiv_name_after(records, n, t))
}

/// Whether `skipped` lists, in their order, the first `n` records that
/// cannot be decoded.
pub open spec fn lists_skipped(records: Seq<AnyLocation>, n: int, skipped: Seq<usize>) -> bool {
    &&& increasing(skipped)
    &&& forall|i: usize|
        #[trigger] skipped.contains(i) <==> i < n && !decodable(
            records[i as int].c@,
            pairs_of(records[i as int].d@),
        )
}

/// Builds a corpus from records, in their order. A record with an unknown
/// schema stops the work, and its index is the error. A record of a known
/// schema that cannot be decoded is left out, and its index is listed.
/// Of two records with one key the later one stays. The word index is not
/// built yet.
pub fn parse_data_blocks(records: Vec<AnyLocation>) -> (r: Result<(LocationsDb, Vec<usize>), usize>)
    ensures
        match r {
            Ok(built) => {
                &&& built.0.wf()
                &&& forall|i: int| 0 <= i < records@.len() ==> known_schema((#[trigger] records@[i]).c@)
                &&& holds_records(&built.0, records@, records@.len() as int)
                &&& holds_names(&built.0, records@, records@.len() as int)
                &&& lists_skipped(records@, records@.len() as int, built.1@)
            },
            Err(at) => {
                &&& at < records@.len()
                &&& !known_schema(records@[at as int].c@)
                &&& forall|i: int| 0 <= i < at ==> known_schema((#[trigger] records@[i]).c@)
            },
        },
{
    let mut db = LocationsDb::new();
    let mut skipped: Vec<usize> = Vec::new();
    let ghost all = records@;
    // taken for the proof: a length fits a machine word
    let total: usize = records.len();
    let mut at: usize = 0;
    for record in it: records
        invariant
            it.seq() == all,
            total == all.len(),
            at == it.index(),
            db.wf(),
            forall|i: int| 0 <= i < at ==> known_schema((#[trigger] all[i]).c@),
            holds_records(&db, all, at as int),
            holds_names(&db, all, at as int),
            lists_skipped(all, at as int, skipped@),
    {
        let ghost before = db;
        let ghost before_skipped = skipped@;
        let ghost given = record;
        assert(given == all[at as int]);
        if !is_known_schema(record.c.as_str()) {
            return Err(at);
        }
        match Location::from_raw(record) {
            Ok(l) => {
                let ghost entity = l;
                db.insert(l);
                proof {
                    lemma_schemas_differ();
                    db.pool.lemma_distinct();
                    assert(grown(before.pool@, db.pool@));
                    let fields = pairs_of(given.d@);
                    assert forall|t: Seq<char>| #[trigger]
                        is_name_of(
                            db.pool@,
                            db.state_by_code@,
                            t,
                            state_name_after(all, at + 1, t),
                        ) by {
                        let held = state_name_after(all, at as int, t);
                        assert(is_name_of(before.pool@, before.state_by_code@, t, held));
                        match entity.data {
                            LocData::St(s) => {
                                lemma_names_put(
                                    before.pool@,
                                    db.pool@,
                                    before.state_by_code@,
                                    db.state_by_code@,
                                    s.alpha2@,
                                    s.name,
                                    t,
                                    held,
                                );
                                assert(normal_field(fields, "alpha2"@) == Some(s.alpha2@));
                                assert(normal_field(fields, "name"@) == Some(s.name@));
                            },
                            _ => {
                                lemma_names_kept(
                                    before.pool@,
                                    db.pool@,
                                    before.state_by_code@,
                                    t,
                                    held,
                                );
                                assert(given.c@ != state_encoding());
                            },
                        }
                    }
                    assert forall|t: Seq<char>| #[trigger]
                        is_name_of(
                            db.pool@,
                            db.subdiv_by_code@,
                            t,
                            subdiv_name_after(all, at + 1, t),
                        ) by {
                        let held = subdiv_name_after(all, at as int, t);
                        assert(is_name_of(before.pool@, before.subdiv_by_code@, t, held));
                        match entity.data {
                            LocData::Subdv(sd) => {
                                lemma_names_put(
                                    before.pool@,
                                    db.pool@,
                                    before.subdiv_by_code@,
                                    db.subdiv_by_code@,
                                    entity.id@,
                                    sd.name,
                                    t,
                                    held,
                                );
                                assert(normal_field(fields, "name"@) == Some(sd.name@));
                            },
                            _ => {
                                lemma_names_kept(
                                    before.pool@,
                                    db.pool@,
                                    before.subdiv_by_code@,
                                    t,
                                    held,
                                );
                                assert(given.c@ != subdiv_encoding());
                            },
                        }
                    }
                }
                proof {
                    let k = choose|k: Sym|
                        crate::intern::is_sym_of(db.pool@, Some(k), entity.key@) && #[trigger] db.all@
                            == before.all@.insert(k, entity);
                    assert(db.all@.contains_key(k) && db.all@[k].key@ == entity.key@);
                    assert(entity.key@ == key_of(all[at as int]));
                    db.pool.lemma_distinct();
                    assert forall|j: Sym| #[trigger] db.all@.contains_key(j) implies from_record(
                        &db,
                        all,
                        at + 1,
                        j,
                    ) by {
                        if j == k {
                            assert(last_of_key(all, at + 1, at as int, db.all@[j]));
                        } else {
                            assert(before.all@.contains_key(j));
                            let i = choose|i: int| #[trigger]
                                last_of_key(all, at as int, i, before.all@[j]);
                            assert(db.entity_ok(j));
                            assert(db.entity_ok(k));
                            assert(db.all@[j].key@ != db.all@[k].key@);
                            assert(last_of_key(all, at + 1, i, db.all@[j]));
                        }
                    }
                    assert forall|i: int|
                        0 <= i < at + 1 && decodable(
                            (#[trigger] all[i]).c@,
                            pairs_of(all[i].d@),
                        ) implies has_key(&db, key_text(all[i].c@, normalized(all[i].i@))) by {
                        if i < at {
                            let t = key_of(all[i]);
                            assert(has_key(&before, t));
                            let j = choose|j: Sym| #[trigger]
                                before.all@.contains_key(j) && before.all@[j].key@ == t;
                            if j == k {
                                assert(before.entity_ok(j));
                                assert(before.pool@[j as int] == t);
                                assert(db.pool@[j as int] == t);
                                assert(db.all@.contains_key(k) && db.all@[k].key@ == t);
                            } else {
                                assert(db.all@.contains_key(j) && db.all@[j].key@ == t);
                            }
                        }
                    }
                    assert forall|i: usize| #[trigger]
                        skipped@.contains(i) <==> i < at + 1 && !decodable(
                            all[i as int].c@,
                            pairs_of(all[i as int].d@),
                        ) by {
                    }
                }
            },
            Err(e) => {
                skipped.push(at);
                proof {
                    assert forall|t: Seq<char>| #[trigger]
                        is_name_of(
                            db.pool@,
                            db.state_by_code@,
                            t,
                            state_name_after(all, at + 1, t),
                        ) by {
                        assert(is_name_of(
                            db.pool@,
                            db.state_by_code@,
                            t,
                            state_name_after(all, at as int, t),
                        ));
                    }
                    assert forall|t: Seq<char>| #[trigger]
                        is_name_of(
                            db.pool@,
                            db.subdiv_by_code@,
                            t,
                            subdiv_name_after(all, at + 1, t),
                        ) by {
                        assert(is_name_of(
                            db.pool@,
                            db.subdiv_by_code@,
                            t,
                            subdiv_name_after(all, at as int, t),
                        ));
                    }
                }
                proof {
                    assert forall|i: usize| #[trigger]
                        skipped@.contains(i) <==> i < at + 1 && !decodable(
                            all[i as int].c@,
                            pairs_of(all[i as int].d@),
                        ) by {
                        if before_skipped.contains(i) {
                            let x = choose|x: int|
                                0 <= x < before_skipped.len() && before_skipped[x] == i;
                            assert(skipped@[x] == i);
                        }
                        if i == at {
                            assert(skipped@[before_skipped.len() as int] == i);
                        }
                        if skipped@.contains(i) && i != at {
                            let x = choose|x: int| 0 <= x < skipped@.len() && skipped@[x] == i;
                            assert(before_skipped[x] == i);
                        }
                    }
                    assert forall|x: int, y: int| 0 <= x < y < skipped@.len() implies #[trigger] skipped@[x]
                        < #[trigger] skipped@[y] by {
                        if y < before_skipped.len() {
                            assert(before_skipped[x] < before_skipped[y]);
                        } else {
                            assert(before_skipped.contains(before_skipped[x]));
                        }
                    }
                    assert forall|j: Sym| #[trigger] db.all@.contains_key(j) implies from_record(
                        &db,
                        all,
                        at + 1,
                        j,
                    ) by {
                        let i = choose|i: int| #[trigger] last_of_key(all, at as int, i, db.all@[j]);
                        assert(last_of_key(all, at + 1, i, db.all@[j]));
                    }
                }
            },
        }
        at += 1;
    }
    Ok((db, skipped))
}

/// The key of the place of a row.
pub open spec fn row_key(row: CsvLocode) -> Seq<char> {
    key_text(locode_encoding(), normalized(row.country@) + seq![':'] + normalized(row.subcode@))
}

/// The coordinates that a row writes, if it writes any.
pub open spec fn row_coordinates(row: CsvLocode) -> Option<Coordinates> {
    match row.coordinates {
        Some(text) => match parsed_coordinates(bytes_of(text@)) {
            Some(found) => Some(found.1),
            None => None,
        },
        None => None,
    }
}

/// The coordinates of the place with a key after the first `n` rows: what
/// the last row with that key writes, or the coordinates of before where
/// no row has the key.
pub open spec fn placed_coordinates(
    rows: Seq<CsvLocode>,
    n: int,
    key: Seq<char>,
    before: Option<Coordinates>,
) -> Option<Coordinates>
    decreases n,
{
    if n <= 0 {
        before
    } else if row_key(rows[n - 1]) == key {
        row_coordinates(rows[n - 1])
    } else {
        placed_coordinates(rows, n - 1, key, before)
    }
}

/// Whether `after` is the entity `before` after the first `n` rows: a
/// place with the coordinates that the rows give it, any other entity as
/// it was.
pub open spec fn placed(before: Location, after: Location, rows: Seq<CsvLocode>, n: int) -> bool {
    match before.data {
        LocData::Locd(old) => LocationsDb::moved(
            before,
            after,
            placed_coordinates(rows, n, before.key@, old.coordinates),
        ),
        _ => after == before,
    }
}

/// Whether `unplaced` lists, in their order, those of the first `n` rows
/// for whose key the corpus has no place.
pub open spec fn lists_unplaced(
    db: &LocationsDb,
    rows: Seq<CsvLocode>,
    n: int,
    unplaced: Seq<usize>,
) -> bool {
    &&& increasing(unplaced)
    &&& forall|i: usize|
        #[trigger] unplaced.contains(i) <==> i < n && !db.has_place(row_key(rows[i as int]))
}

/// Gives the places of a corpus the coordinates that the rows write, and
/// lists the rows for whose key the corpus has no place. Of two rows with
/// one key the later one stays.
pub fn parse_data_list(db: LocationsDb, rows: &Vec<CsvLocode>) -> (r: (LocationsDb, Vec<usize>))
    requires
        db.wf(),
    ensures
        r.0.wf(),
        r.0.indexed() == db.indexed(),
        r.0.pool == db.pool,
        r.0.keys == db.keys,
        r.0.state_by_code == db.state_by_code,
        r.0.subdiv_by_code == db.subdiv_by_code,
        r.0.by_word_map == db.by_word_map,
        r.0.by_word_vec == db.by_word_vec,
        r.0.fst == db.fst,
        r.0.all@.dom() == db.all@.dom(),
        forall|k: Sym| #[trigger]
            db.all@.contains_key(k) ==> placed(db.all@[k], r.0.all@[k], rows@, rows@.len() as int),
        lists_unplaced(&db, rows@, rows@.len() as int, r.1@),
{
    let ghost start = db;
    let mut db = db;
    let mut unplaced: Vec<usize> = Vec::new();
    let n: usize = rows.len();
    let mut i: usize = 0;
    proof {
        assert forall|k: Sym| #[trigger] start.all@.contains_key(k) implies placed(
            start.all@[k],
            db.all@[k],
            rows@,
            0,
        ) by {
        }
    }
    while i < n
        invariant
            n == rows@.len(),
            i <= n,
            start.wf(),
            db.wf(),
            db.indexed() == start.indexed(),
            db.pool == start.pool,
            db.keys == start.keys,
            db.state_by_code == start.state_by_code,
            db.subdiv_by_code == start.subdiv_by_code,
            db.by_word_map == start.by_word_map,
            db.by_word_vec == start.by_word_vec,
            db.fst == start.fst,
            db.all@.dom() == start.all@.dom(),
            forall|k: Sym| #[trigger]
                start.all@.contains_key(k) ==> placed(start.all@[k], db.all@[k], rows@, i as int),
            lists_unplaced(&start, rows@, i as int, unplaced@),
        decreases n - i,
    {
        let key = rows[i].key();
        let coordinates = rows[i].parse_coordinates();
        let ghost before = db;
        let ghost old_list = unplaced@;
        let found = db.set_coordinates(key.as_str(), coordinates);
        proof {
            start.pool.lemma_distinct();
            assert(key@ == row_key(rows@[i as int]));
            assert(coordinates == row_coordinates(rows@[i as int]));
            // the places of the corpus keep their keys
            assert forall|k: Sym| #[trigger] start.all@.contains_key(k) implies before.all@[k].key
                == start.all@[k].key && (before.all@[k].data is Locd <==> start.all@[k].data
                is Locd) by {
                assert(placed(start.all@[k], before.all@[k], rows@, i as int));
            }
            assert(before.has_place(key@) <==> start.has_place(key@)) by {
                if before.has_place(key@) {
                    let j = choose|j: Sym| #[trigger]
                        before.all@.contains_key(j) && before.all@[j].key@ == key@
                            && before.all@[j].data is Locd;
                    assert(start.all@.contains_key(j));
                }
                if start.has_place(key@) {
                    let j = choose|j: Sym| #[trigger]
                        start.all@.contains_key(j) && start.all@[j].key@ == key@
                            && start.all@[j].data is Locd;
                    assert(before.all@.contains_key(j));
                }
            }
            assert forall|k: Sym| #[trigger] start.all@.contains_key(k) implies placed(
                start.all@[k],
                db.all@[k],
                rows@,
                i + 1,
            ) by {
                assert(placed(start.all@[k], before.all@[k], rows@, i as int));
                assert(start.entity_ok(k));
                if found {
                    let j = choose|j: Sym|
                        {
                            &&& crate::intern::is_sym_of(before.pool@, Some(j), key@)
                            &&& #[trigger] before.all@.contains_key(j)
                            &&& LocationsDb::moved(before.all@[j], db.all@[j], coordinates)
                            &&& LocationsDb::same_but(before.all@, db.all@, j)
                        };
                    assert(start.entity_ok(j));
                    if j == k {
                        assert(start.all@[k].key@ == key@);
                    } else {
                        assert(db.all@[k] == before.all@[k]);
                        assert(start.all@[k].key@ != key@);
                    }
                } else {
                    if start.all@[k].data is Locd {
                        assert(start.all@[k].key@ != key@);
                    }
                }
            }
        }
        if !found {
            unplaced.push(i);
        }
        proof {
            assert forall|x: usize| #[trigger]
                unplaced@.contains(x) <==> x < i + 1 && !start.has_place(
                    row_key(rows@[x as int]),
                ) by {
                if old_list.contains(x) {
                    let y = choose|y: int| 0 <= y < old_list.len() && old_list[y] == x;
                    assert(unplaced@[y] == x);
                }
                if x == i && !found {
                    assert(unplaced@[old_list.len() as int] == x);
                }
                if unplaced@.contains(x) && x != i {
                    let y = choose|y: int| 0 <= y < unplaced@.len() && unplaced@[y] == x;
                    assert(old_list[y] == x);
                }
                if unplaced@.contains(x) && x == i && found {
                    let y = choose|y: int| 0 <= y < unplaced@.len() && unplaced@[y] == x;
                    assert(old_list[y] == x);
                }
            }
            assert forall|x: int, y: int| 0 <= x < y < unplaced@.len() implies #[trigger] unplaced@[x]
                < #[trigger] unplaced@[y] by {
                if y < old_list.len() {
                    assert(old_list[x] < old_list[y]);
                } else {
                    assert(old_list.contains(old_list[x]));
                }
            }
        }
        i += 1;
    }
    (db, unplaced)
}

} // verus!
