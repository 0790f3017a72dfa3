//! The answer to a request for one entity.

use crate::intern::{Interner, Sym};
use crate::location::{LocData, Location};
use crate::locations_db::LocationsDb;
use crate::search::opt_text;
use crate::unicode::texts;
use vstd::prelude::*;

verus! {

/// What a request for an entity may ask for besides the key.
#[derive(Debug)]
pub struct FetchParams {
    pub extended: Option<bool>,
}

/// An entity with the keys of the country and the subdivision that it is
/// or lies in.
#[derive(Debug)]
pub struct ResLocation {
    pub encoding: String,
    pub id: String,
    pub names: Vec<String>,
    pub codes: Vec<String>,
    pub state: Option<String>,
    pub subdiv: Option<String>,
}

/// The answer to a request for an entity, with the time it took.
#[derive(Debug)]
pub struct FetchResults {
    pub time: String,
    pub result: ResLocation,
}

impl FetchParams {
    /// Whether the request asks for the extended form.
    pub fn is_extended(&self) -> (r: bool)
        ensures
            r == (self.extended == Some(true)),
    {
        match self.extended {
            Some(e) => e,
            None => false,
        }
    }
}

/// The key of a parent as a result shows it: the key of the entity itself
/// where it is of the parent's shape, else the key of the parent where the
/// table holds it.
pub open spec fn shown_parent(
    pool: Seq<Seq<char>>,
    own: bool,
    key: Seq<char>,
    parent: Option<Seq<char>>,
) -> Option<Seq<char>> {
    if own {
        Some(key)
    } else {
        match parent {
            Some(t) => if pool.contains(t) {
                Some(t)
            } else {
                None
            },
            None => None,
        }
    }
}

impl ResLocation {
    /// Whether `self` shows the entity `l`, with the keys of its country
    /// and its subdivision as far as the table holds them.
    pub open spec fn shows(&self, l: &Location, pool: Seq<Seq<char>>) -> bool {
        &&& self.encoding@ == l.encoding@
        &&& self.id@ == l.id@
        &&& texts(self.names@) == l.data.names()
        &&& texts(self.codes@) == l.data.codes()
        &&& opt_text(self.state) == shown_parent(
            pool,
            l.data is St,
            l.key@,
            l.data.parent_texts().0,
        )
        &&& opt_text(self.subdiv) == shown_parent(
            pool,
            l.data is Subdv,
            l.key@,
            l.data.parent_texts().1,
        )
    }

    /// Shows an entity with the keys of its country and its subdivision.
    /// A country is its own country, and a subdivision its own
    /// subdivision.
    pub fn from_location(l: &Location, pool: &Interner, _extended: bool) -> (r: ResLocation)
        requires
            pool.wf(),
            l.data.wf(),
        ensures
            r.shows(l, pool@),
    {
        let parents = l.get_parents(pool);
        let state: Option<String> = match &l.data {
            LocData::St(_) => Some(l.key.clone()),
            _ => match parents.0 {
                Some(p) => Some(pool.text(p).clone()),
                None => None,
            },
        };
        let subdiv: Option<String> = match &l.data {
            LocData::Subdv(_) => Some(l.key.clone()),
            _ => match parents.1 {
                Some(p) => Some(pool.text(p).clone()),
                None => None,
            },
        };
        ResLocation {
            encoding: l.encoding.clone(),
            id: l.id.clone(),
            names: l.get_names().to_vec(),
            codes: l.get_codes().to_vec(),
            state,
            subdiv,
        }
    }
}

/// The entity with a key as a result shows it, if the corpus has it.
pub fn fetch(db: &LocationsDb, key: &str, params: &FetchParams) -> (r: Option<ResLocation>)
    requires
        db.wf(),
    ensures
        match r {
            Some(shown) => exists|k: Sym| #[trigger]
                db.all@.contains_key(k) && db.all@[k].key@ == key@ && shown.shows(
                    &db.all@[k],
                    db.pool@,
                ),
            None => forall|k: Sym| #[trigger]
                db.all@.contains_key(k) ==> db.all@[k].key@ != key@,
        },
{
    match db.retrieve(key) {
        Some(l) => {
            proof {
                let k = choose|k: Sym| #[trigger] db.all@.contains_key(k) && db.all@[k] == *l;
                assert(db.entity_ok(k));
            }
            let shown = ResLocation::from_location(l, &db.pool, params.is_extended());
            proof {
                let k = choose|k: Sym| #[trigger] db.all@.contains_key(k) && db.all@[k] == *l;
                assert(db.all@.contains_key(k) && db.all@[k].key@ == key@ && shown.shows(
                    &db.all@[k],
                    db.pool@,
                ));
            }
            Some(shown)
        },
        None => None,
    }
}

} // verus!
