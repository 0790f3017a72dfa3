//! An entity as a search shows it.

use crate::location::Location;
use crate::locations_db::{is_name_of, LocationsDb};
use crate::unicode::texts;
use vstd::prelude::*;

verus! {

/// An entity with the names of the country and the subdivision that it
/// is or lies in.
#[derive(Debug)]
pub struct LocJson {
    pub encoding: String,
    pub id: String,
    pub key: String,
    pub names: Vec<String>,
    pub codes: Vec<String>,
    /// The code of the country and its name.
    pub state: (String, String),
    /// The code of the subdivision and its name, where both are known.
    pub subdiv: Option<(String, String)>,
}

/// The name that stands for a country that the corpus does not have.
pub open spec fn unknown_country() -> Seq<char> {
    "#UNKNOWN COUNTRY#"@
}

impl LocJson {
    /// Whether `self` shows the entity `l` of the corpus `db`.
    pub open spec fn shows(&self, db: &LocationsDb, l: &Location) -> bool {
        &&& self.encoding@ == l.encoding@
        &&& self.id@ == l.id@
        &&& self.key@ == l.key@
        &&& texts(self.names@) == l.data.names()
        &&& texts(self.codes@) == l.data.codes()
        &&& self.state.0@ == l.data.state_code()
        &&& (is_name_of(db.pool@, db.state_by_code@, l.data.state_code(), Some(self.state.1@))
            || (self.state.1@ == unknown_country() && is_name_of(
            db.pool@,
            db.state_by_code@,
            l.data.state_code(),
            None,
        )))
        &&& match self.subdiv {
            Some(pair) => l.subdiv_text(db.pool@) == Some(pair.0@) && is_name_of(
                db.pool@,
                db.subdiv_by_code@,
                l.data.state_code() + seq![':'] + pair.0@,
                Some(pair.1@),
            ),
            None => match l.subdiv_text(db.pool@) {
                Some(code) => is_name_of(
                    db.pool@,
                    db.subdiv_by_code@,
                    l.data.state_code() + seq![':'] + code,
                    None,
                ),
                None => true,
            },
        }
    }

    /// Shows an entity: its key, schema, id, names and codes, the code and
    /// the name of its country, and the code and the name of its
    /// subdivision where the corpus has them.
    pub fn from_location(db: &LocationsDb, l: &Location) -> (r: LocJson)
        requires
            db.wf(),
            l.data.wf(),
        ensures
            r.shows(db, l),
    {
        let state_code = l.get_state();
        let state_name: String = match db.state_name(state_code.as_str()) {
            Some(name) => name.clone(),
            None => "#UNKNOWN COUNTRY#".to_owned(),
        };
        let subdiv: Option<(String, String)> = match l.get_subdiv(&db.pool) {
            Some(code) => match db.subdiv_name(state_code.as_str(), code.as_str()) {
                Some(name) => Some((code, name.clone())),
                None => None,
            },
            None => None,
        };
        LocJson {
            key: l.key.clone(),
            encoding: l.encoding.clone(),
            id: l.id.clone(),
            names: l.get_names().to_vec(),
            codes: l.get_codes().to_vec(),
            state: (state_code.clone(), state_name),
            subdiv,
        }
    }
}

} // verus!
