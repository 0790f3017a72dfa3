//! The entities of the corpus: countries, subdivisions, UN/LOCODE places
//! and airports.

use crate::coordinates::{coordinate_parser, parsed_coordinates, Coordinates};
use crate::intern::{is_sym_of, Interner, Sym};
use crate::number::{parse_i16, parsed_i16};
use crate::small::{items_of, ShortList};
use crate::search::{
    best_code, better, has_term, lemma_best_code_score, lemma_exact_term_scores, match_score,
    opt_text, QueryView, Score, SearchTerm,
};
use crate::text::{append, byte_len, bytes_of, contains_text, segments, split_ascii, str_eq};
use crate::unicode::texts;
use crate::{
    is_normal, normalize, normalized, SCORE_SOFT_MAX, SINGLE_WORD_MATCH_PENALTY, STATE_CODE_BOOST,
    SUBDIV_CODE_BOOST,
};
use vstd::prelude::*;
use vstd::string::{StrSliceExecFns, StringSliceAdditionalSpecFns};
use vstd::utf8::is_ascii_chars;

verus! {

/// A record of the corpus before it is decoded: its schema, its id and
/// the fields of its payload, each a name and a value.
#[derive(Debug)]
pub struct AnyLocation {
    pub c: String,
    pub i: String,
    pub d: Vec<(String, String)>,
}

/// Why a record could not be decoded.
#[derive(Debug)]
pub enum DecodeError {
    /// The payload lacks a field that its schema requires.
    MissingField { field: String },
    /// The elevation of an airport is not a whole number of 16 bits.
    BadElevation,
}

/// Whether the error says that the field of this name is missing.
pub open spec fn is_missing(e: DecodeError, name: Seq<char>) -> bool {
    e matches DecodeError::MissingField { field } && field@ == name
}

/// Whether the error names the first of the names that no field has.
pub open spec fn lacks_first(
    e: DecodeError,
    fields: Seq<(Seq<char>, Seq<char>)>,
    names: Seq<Seq<char>>,
) -> bool {
    e matches DecodeError::MissingField { field } && first_missing(fields, names) == Some(field@)
}

/// The names and values of a payload's fields.
pub open spec fn pairs_of(fields: Seq<(String, String)>) -> Seq<(Seq<char>, Seq<char>)> {
    fields.map_values(|f: (String, String)| (f.0@, f.1@))
}

/// The value of the first field at or after `from` that has the name.
pub open spec fn field_from(fields: Seq<(Seq<char>, Seq<char>)>, name: Seq<char>, from: int)
    -> Option<Seq<char>>
    decreases fields.len() - from,
{
    if from < 0 || from >= fields.len() {
        None
    } else if fields[from].0 == name {
        Some(fields[from].1)
    } else {
        field_from(fields, name, from + 1)
    }
}

/// The value of the first field that has the name.
pub open spec fn field(fields: Seq<(Seq<char>, Seq<char>)>, name: Seq<char>) -> Option<Seq<char>> {
    field_from(fields, name, 0)
}

/// The value of a field in normal form, if the field is there.
pub open spec fn normal_field(fields: Seq<(Seq<char>, Seq<char>)>, name: Seq<char>) -> Option<
    Seq<char>,
> {
    match field(fields, name) {
        Some(v) => Some(normalized(v)),
        None => None,
    }
}

/// The value of the first field that has the name.
pub fn lookup<'a>(fields: &'a Vec<(String, String)>, name: &str) -> (r: Option<&'a String>)
    ensures
        match r {
            Some(v) => field(pairs_of(fields@), name@) == Some(v@),
            None => field(pairs_of(fields@), name@) is None,
        },
{
    let ghost pairs = pairs_of(fields@);
    let mut i: usize = 0;
    while i < fields.len()
        invariant
            i <= fields@.len(),
            pairs == pairs_of(fields@),
            field(pairs, name@) == field_from(pairs, name@, i as int),
        decreases fields.len() - i,
    {
        assert(pairs[i as int] == (fields@[i as int].0@, fields@[i as int].1@));
        if str_eq(fields[i].0.as_str(), name) {
            return Some(&fields[i].1);
        }
        i += 1;
    }
    None
}

/// The value of a field that the schema requires.
pub fn extract_field<'a>(fields: &'a Vec<(String, String)>, name: &str) -> (r: Result<
    &'a String,
    DecodeError,
>)
    ensures
        match r {
            Ok(v) => field(pairs_of(fields@), name@) == Some(v@),
            Err(e) => field(pairs_of(fields@), name@) is None && is_missing(e, name@),
        },
{
    match lookup(fields, name) {
        Some(v) => Ok(v),
        None => Err(DecodeError::MissingField { field: name.to_owned() }),
    }
}

/// The value of a required field in normal form.
fn required(fields: &Vec<(String, String)>, name: &str) -> (r: Result<String, DecodeError>)
    ensures
        match r {
            Ok(v) => normal_field(pairs_of(fields@), name@) == Some(v@) && is_normal(v@),
            Err(e) => field(pairs_of(fields@), name@) is None && is_missing(e, name@),
        },
{
    match extract_field(fields, name) {
        Ok(v) => Ok(normalize(v.as_str())),
        Err(e) => Err(e),
    }
}

/// The value of a field that may be absent, in normal form.
fn optional(fields: &Vec<(String, String)>, name: &str) -> (r: Option<String>)
    ensures
        opt_text(r) == normal_field(pairs_of(fields@), name@),
        r matches Some(v) ==> is_normal(v@),
{
    match lookup(fields, name) {
        Some(v) => Some(normalize(v.as_str())),
        None => None,
    }
}

/// A country.
#[derive(Debug)]
pub struct State {
    pub name: String,
    pub short: String,
    pub alpha2: String,
    pub alpha3: String,
    pub continent: String,
}

/// A subdivision of a country.
#[derive(Debug)]
pub struct Subdivision {
    pub name: String,
    pub supercode: String,
    pub subcode: String,
    pub level: String,
}

/// A place with a UN/LOCODE.
#[derive(Debug)]
pub struct Locode {
    pub name: String,
    pub supercode: String,
    pub subcode: String,
    pub subdivision_name: Option<String>,
    pub subdivision_code: Option<String>,
    pub function_code: String,
    pub coordinates: Option<Coordinates>,
}

/// An airport with an IATA code. `x` and `y` are kept as the decimal text
/// in which the corpus gives them.
#[derive(Debug)]
pub struct Airport {
    pub name: String,
    pub iata: String,
    pub airport_type: String,
    pub city: Option<String>,
    pub country: String,
    pub region: String,
    pub x: String,
    pub y: String,
    pub elevation: Option<i16>,
}

/// The payload of an entity, by its shape.
#[derive(Debug)]
pub enum LocData {
    St(State),
    Subdv(Subdivision),
    Locd(Locode),
    Airp(Airport),
}

/// The country and the subcode by which a subdivision is known.
#[derive(Debug)]
pub struct SubDivKey {
    pub state: String,
    pub subcode: String,
}

impl State {
    /// Whether the country holds what the fields of a payload say.
    pub open spec fn decoded_from(&self, fields: Seq<(Seq<char>, Seq<char>)>) -> bool {
        &&& normal_field(fields, "name"@) == Some(self.name@)
        &&& normal_field(fields, "short"@) == Some(self.short@)
        &&& normal_field(fields, "alpha2"@) == Some(self.alpha2@)
        &&& normal_field(fields, "alpha3"@) == Some(self.alpha3@)
        &&& normal_field(fields, "continent"@) == Some(self.continent@)
    }

    /// Whether every text of the country is in normal form.
    pub open spec fn wf(&self) -> bool {
        &&& is_normal(self.name@)
        &&& is_normal(self.short@)
        &&& is_normal(self.alpha2@)
        &&& is_normal(self.alpha3@)
        &&& is_normal(self.continent@)
    }

    /// The names of the country: its name, and its short name if that is
    /// another one and longer than three bytes.
    pub open spec fn names(&self) -> Seq<Seq<char>> {
        if bytes_of(self.short@).len() > 3 && self.short@ != self.name@ {
            seq![self.name@, self.short@]
        } else {
            seq![self.name@]
        }
    }

    /// The codes of the country: its two codes, and its short name if that
    /// is shorter than four bytes.
    pub open spec fn codes(&self) -> Seq<Seq<char>> {
        if bytes_of(self.short@).len() < 4 {
            seq![self.alpha2@, self.alpha3@, self.short@]
        } else {
            seq![self.alpha2@, self.alpha3@]
        }
    }

    /// Decodes a country. The first required field that is missing, in the
    /// order name, short, alpha2, alpha3, continent, is the error.
    pub fn from_raw(fields: &Vec<(String, String)>) -> (r: Result<State, DecodeError>)
        ensures
            match r {
                Ok(st) => st.decoded_from(pairs_of(fields@)) && st.wf(),
                Err(e) => lacks_first(
                    e,
                    pairs_of(fields@),
                    seq!["name"@, "short"@, "alpha2"@, "alpha3"@, "continent"@],
                ),
            },
    {
        let ghost names = seq!["name"@, "short"@, "alpha2"@, "alpha3"@, "continent"@];
        proof {
            reveal_with_fuel(first_missing, 6);
        }
        let name = match required(fields, "name") {
            Ok(v) => v,
            Err(e) => {
                return Err(e);
            },
        };
        let short = match required(fields, "short") {
            Ok(v) => v,
            Err(e) => {
                return Err(e);
            },
        };
        let alpha2 = match required(fields, "alpha2") {
            Ok(v) => v,
            Err(e) => {
                return Err(e);
            },
        };
        let alpha3 = match required(fields, "alpha3") {
            Ok(v) => v,
            Err(e) => {
                return Err(e);
            },
        };
        let continent = match required(fields, "continent") {
            Ok(v) => v,
            Err(e) => {
                return Err(e);
            },
        };
        Ok(State { name, short, alpha2, alpha3, continent })
    }

    /// The names under which the country is found.
    pub fn get_names(&self) -> (r: ShortList)
        ensures
            texts(r@) == self.names(),
    {
        let mut r: Vec<String> = Vec::new();
        r.push(self.name.clone());
        if byte_len(self.short.as_str()) > 3 && !str_eq(self.short.as_str(), self.name.as_str()) {
            r.push(self.short.clone());
        }
        assert(texts(r@) =~= self.names());
        ShortList::from_vec(r)
    }

    /// The codes under which the country is found.
    pub fn get_codes(&self) -> (r: ShortList)
        ensures
            texts(r@) == self.codes(),
    {
        let mut r: Vec<String> = Vec::new();
        r.push(self.alpha2.clone());
        r.push(self.alpha3.clone());
        if byte_len(self.short.as_str()) < 4 {
            r.push(self.short.clone());
        }
        assert(texts(r@) =~= self.codes());
        ShortList::from_vec(r)
    }
}

impl Subdivision {
    /// Whether the subdivision holds what the fields of a payload say.
    pub open spec fn decoded_from(&self, fields: Seq<(Seq<char>, Seq<char>)>) -> bool {
        &&& normal_field(fields, "name"@) == Some(self.name@)
        &&& normal_field(fields, "supercode"@) == Some(self.supercode@)
        &&& normal_field(fields, "subcode"@) == Some(self.subcode@)
        &&& normal_field(fields, "level"@) == Some(self.level@)
    }

    /// Whether every text of the subdivision is in normal form.
    pub open spec fn wf(&self) -> bool {
        &&& is_normal(self.name@)
        &&& is_normal(self.supercode@)
        &&& is_normal(self.subcode@)
        &&& is_normal(self.level@)
    }

    /// Decodes a subdivision. The first required field that is missing, in
    /// the order name, supercode, subcode, level, is the error.
    pub fn from_raw(fields: &Vec<(String, String)>) -> (r: Result<Subdivision, DecodeError>)
        ensures
            match r {
                Ok(sd) => sd.decoded_from(pairs_of(fields@)) && sd.wf(),
                Err(e) => lacks_first(
                    e,
                    pairs_of(fields@),
                    seq!["name"@, "supercode"@, "subcode"@, "level"@],
                ),
            },
    {
        proof {
            reveal_with_fuel(first_missing, 5);
        }
        let name = match required(fields, "name") {
            Ok(v) => v,
            Err(e) => {
                return Err(e);
            },
        };
        let supercode = match required(fields, "supercode") {
            Ok(v) => v,
            Err(e) => {
                return Err(e);
            },
        };
        let subcode = match required(fields, "subcode") {
            Ok(v) => v,
            Err(e) => {
                return Err(e);
            },
        };
        let level = match required(fields, "level") {
            Ok(v) => v,
            Err(e) => {
                return Err(e);
            },
        };
        Ok(Subdivision { name, supercode, subcode, level })
    }

    /// The country and the subcode by which the subdivision is known.
    pub fn subdiv_key(&self) -> (r: SubDivKey)
        ensures
            r.state@ == self.supercode@,
            r.subcode@ == self.subcode@,
    {
        SubDivKey { state: self.supercode.clone(), subcode: self.subcode.clone() }
    }

    /// The names under which the subdivision is found.
    pub fn get_names(&self) -> (r: ShortList)
        ensures
            texts(r@) == seq![self.name@],
    {
        let mut r: Vec<String> = Vec::new();
        r.push(self.name.clone());
        assert(texts(r@) =~= seq![self.name@]);
        ShortList::from_vec(r)
    }

    /// The codes under which the subdivision is found.
    pub fn get_codes(&self) -> (r: ShortList)
        ensures
            texts(r@) == seq![self.subcode@],
    {
        let mut r: Vec<String> = Vec::new();
        r.push(self.subcode.clone());
        assert(texts(r@) =~= seq![self.subcode@]);
        ShortList::from_vec(r)
    }
}

impl Locode {
    /// Whether the place holds what the fields of a payload say, with no
    /// coordinates yet.
    pub open spec fn decoded_from(&self, fields: Seq<(Seq<char>, Seq<char>)>) -> bool {
        &&& normal_field(fields, "name"@) == Some(self.name@)
        &&& normal_field(fields, "supercode"@) == Some(self.supercode@)
        &&& normal_field(fields, "subcode"@) == Some(self.subcode@)
        &&& normal_field(fields, "subdivision_name"@) == opt_text(self.subdivision_name)
        &&& normal_field(fields, "subdivision_code"@) == opt_text(self.subdivision_code)
        &&& normal_field(fields, "function_code"@) == Some(self.function_code@)
        &&& self.coordinates is None
    }

    /// Whether every text of the place is in normal form.
    pub open spec fn wf(&self) -> bool {
        &&& is_normal(self.name@)
        &&& is_normal(self.supercode@)
        &&& is_normal(self.subcode@)
        &&& self.subdivision_name matches Some(t) ==> is_normal(t@)
        &&& self.subdivision_code matches Some(t) ==> is_normal(t@)
        &&& is_normal(self.function_code@)
    }

    /// Decodes a place. The first required field that is missing, in the
    /// order name, supercode, subcode, function_code, is the error.
    pub fn from_raw(fields: &Vec<(String, String)>) -> (r: Result<Locode, DecodeError>)
        ensures
            match r {
                Ok(l) => l.decoded_from(pairs_of(fields@)) && l.wf(),
                Err(e) => lacks_first(
                    e,
                    pairs_of(fields@),
                    seq!["name"@, "supercode"@, "subcode"@, "function_code"@],
                ),
            },
    {
        proof {
            reveal_with_fuel(first_missing, 5);
        }
        let name = match required(fields, "name") {
            Ok(v) => v,
            Err(e) => {
                return Err(e);
            },
        };
        let supercode = match required(fields, "supercode") {
            Ok(v) => v,
            Err(e) => {
                return Err(e);
            },
        };
        let subcode = match required(fields, "subcode") {
            Ok(v) => v,
            Err(e) => {
                return Err(e);
            },
        };
        let subdivision_name = optional(fields, "subdivision_name");
        let subdivision_code = optional(fields, "subdivision_code");
        let function_code = match required(fields, "function_code") {
            Ok(v) => v,
            Err(e) => {
                return Err(e);
            },
        };
        Ok(
            Locode {
                name,
                supercode,
                subcode,
                subdivision_name,
                subdivision_code,
                function_code,
                coordinates: None,
            },
        )
    }

    /// The names under which the place is found.
    pub fn get_names(&self) -> (r: ShortList)
        ensures
            texts(r@) == seq![self.name@],
    {
        let mut r: Vec<String> = Vec::new();
        r.push(self.name.clone());
        assert(texts(r@) =~= seq![self.name@]);
        ShortList::from_vec(r)
    }

    /// The codes under which the place is found.
    pub fn get_codes(&self) -> (r: ShortList)
        ensures
            texts(r@) == seq![self.subcode@],
    {
        let mut r: Vec<String> = Vec::new();
        r.push(self.subcode.clone());
        assert(texts(r@) =~= seq![self.subcode@]);
        ShortList::from_vec(r)
    }
}

/// An airport as the corpus gives it, before its texts are normalized.
#[derive(Debug)]
pub struct AirportRaw {
    pub name: String,
    pub iata: String,
    pub airport_type: String,
    pub city: Option<String>,
    pub country: String,
    pub region: String,
    pub y: String,
    pub x: String,
    pub elevation: Option<String>,
}

impl AirportRaw {
    /// Whether the record holds what the fields of a payload say.
    pub open spec fn decoded_from(&self, fields: Seq<(Seq<char>, Seq<char>)>) -> bool {
        &&& field(fields, "name"@) == Some(self.name@)
        &&& field(fields, "iata"@) == Some(self.iata@)
        &&& field(fields, "type"@) == Some(self.airport_type@)
        &&& field(fields, "city"@) == opt_text(self.city)
        &&& field(fields, "country"@) == Some(self.country@)
        &&& field(fields, "region"@) == Some(self.region@)
        &&& field(fields, "y"@) == Some(self.y@)
        &&& field(fields, "x"@) == Some(self.x@)
        &&& field(fields, "elevation"@) == opt_text(self.elevation)
    }

    /// Reads an airport from the fields of a payload. The first required
    /// field that is missing, in the order name, iata, type, country,
    /// region, y, x, is the error.
    pub fn from_fields(fields: &Vec<(String, String)>) -> (r: Result<AirportRaw, DecodeError>)
        ensures
            match r {
                Ok(a) => a.decoded_from(pairs_of(fields@)),
                Err(e) => lacks_first(
                    e,
                    pairs_of(fields@),
                    seq!["name"@, "iata"@, "type"@, "country"@, "region"@, "y"@, "x"@],
                ),
            },
    {
        proof {
            reveal_with_fuel(first_missing, 8);
        }
        let name = match extract_field(fields, "name") {
            Ok(v) => v.clone(),
            Err(e) => {
                return Err(e);
            },
        };
        let iata = match extract_field(fields, "iata") {
            Ok(v) => v.clone(),
            Err(e) => {
                return Err(e);
            },
        };
        let airport_type = match extract_field(fields, "type") {
            Ok(v) => v.clone(),
            Err(e) => {
                return Err(e);
            },
        };
        let country = match extract_field(fields, "country") {
            Ok(v) => v.clone(),
            Err(e) => {
                return Err(e);
            },
        };
        let region = match extract_field(fields, "region") {
            Ok(v) => v.clone(),
            Err(e) => {
                return Err(e);
            },
        };
        let y = match extract_field(fields, "y") {
            Ok(v) => v.clone(),
            Err(e) => {
                return Err(e);
            },
        };
        let x = match extract_field(fields, "x") {
            Ok(v) => v.clone(),
            Err(e) => {
                return Err(e);
            },
        };
        let city = match lookup(fields, "city") {
            Some(v) => Some(v.clone()),
            None => None,
        };
        let elevation = match lookup(fields, "elevation") {
            Some(v) => Some(v.clone()),
            None => None,
        };
        Ok(AirportRaw { name, iata, airport_type, city, country, region, y, x, elevation })
    }
}

impl Airport {
    /// Whether the airport holds the record in normal form: the names and
    /// codes normalized, the type and the position as they are, the
    /// elevation as a number.
    pub open spec fn normalized_from(&self, raw: &AirportRaw) -> bool {
        &&& self.name@ == normalized(raw.name@)
        &&& self.iata@ == normalized(raw.iata@)
        &&& self.airport_type@ == raw.airport_type@
        &&& opt_text(self.city) == match raw.city {
            Some(c) => Some(normalized(c@)),
            None => None,
        }
        &&& self.country@ == normalized(raw.country@)
        &&& self.region@ == normalized(raw.region@)
        &&& self.x@ == raw.x@
        &&& self.y@ == raw.y@
        &&& match raw.elevation {
            Some(e) => self.elevation is Some && self.elevation == parsed_i16(bytes_of(e@)),
            None => self.elevation is None,
        }
    }

    /// Whether the names and codes of the airport are in normal form.
    pub open spec fn wf(&self) -> bool {
        &&& is_normal(self.name@)
        &&& is_normal(self.iata@)
        &&& self.city matches Some(t) ==> is_normal(t@)
        &&& is_normal(self.country@)
        &&& is_normal(self.region@)
    }

    /// Puts a record in normal form. An elevation that writes no 16-bit
    /// number is an error.
    pub fn from_raw(raw: AirportRaw) -> (r: Result<Airport, DecodeError>)
        ensures
            match r {
                Ok(a) => a.normalized_from(&raw) && a.wf(),
                Err(e) => e is BadElevation && raw.elevation is Some && parsed_i16(
                    bytes_of(raw.elevation.unwrap()@),
                ) is None,
            },
    {
        let elevation: Option<i16> = match &raw.elevation {
            Some(e) => match parse_i16(e.as_str()) {
                Some(v) => Some(v),
                None => {
                    return Err(DecodeError::BadElevation);
                },
            },
            None => None,
        };
        let city = match &raw.city {
            Some(c) => Some(normalize(c.as_str())),
            None => None,
        };
        Ok(
            Airport {
                name: normalize(raw.name.as_str()),
                iata: normalize(raw.iata.as_str()),
                airport_type: raw.airport_type,
                city,
                country: normalize(raw.country.as_str()),
                region: normalize(raw.region.as_str()),
                x: raw.x,
                y: raw.y,
                elevation,
            },
        )
    }

    /// The names under which the airport is found.
    pub fn get_names(&self) -> (r: ShortList)
        ensures
            texts(r@) == seq![self.name@],
    {
        let mut r: Vec<String> = Vec::new();
        r.push(self.name.clone());
        assert(texts(r@) =~= seq![self.name@]);
        ShortList::from_vec(r)
    }

    /// The codes under which the airport is found.
    pub fn get_codes(&self) -> (r: ShortList)
        ensures
            texts(r@) == seq![self.iata@],
    {
        let mut r: Vec<String> = Vec::new();
        r.push(self.iata.clone());
        assert(texts(r@) =~= seq![self.iata@]);
        ShortList::from_vec(r)
    }
}

impl Airport {
    /// Whether the airport holds what the fields of a payload say.
    pub open spec fn decoded_from(&self, fields: Seq<(Seq<char>, Seq<char>)>) -> bool {
        &&& normal_field(fields, "name"@) == Some(self.name@)
        &&& normal_field(fields, "iata"@) == Some(self.iata@)
        &&& field(fields, "type"@) == Some(self.airport_type@)
        &&& normal_field(fields, "city"@) == opt_text(self.city)
        &&& normal_field(fields, "country"@) == Some(self.country@)
        &&& normal_field(fields, "region"@) == Some(self.region@)
        &&& field(fields, "y"@) == Some(self.y@)
        &&& field(fields, "x"@) == Some(self.x@)
        &&& match field(fields, "elevation"@) {
            Some(e) => self.elevation is Some && self.elevation == parsed_i16(bytes_of(e)),
            None => self.elevation is None,
        }
    }
}

/// The text of an optional string as a sequence of one text or none.
pub open spec fn text_or_none(s: Option<String>) -> Seq<Seq<char>> {
    match s {
        Some(t) => seq![t@],
        None => Seq::empty(),
    }
}

/// The schema of the countries.
pub open spec fn state_encoding() -> Seq<char> {
    "ISO-3166-1"@
}

/// The schema of the subdivisions.
pub open spec fn subdiv_encoding() -> Seq<char> {
    "ISO-3166-2"@
}

/// The schema of the UN/LOCODE places.
pub open spec fn locode_encoding() -> Seq<char> {
    "UN-LOCODE"@
}

/// The schema of the airports.
pub open spec fn iata_encoding() -> Seq<char> {
    "IATA"@
}

/// The four schemas are four texts.
pub proof fn lemma_schemas_differ()
    ensures
        state_encoding() != subdiv_encoding(),
        state_encoding() != locode_encoding(),
        state_encoding() != iata_encoding(),
        subdiv_encoding() != locode_encoding(),
        subdiv_encoding() != iata_encoding(),
        locode_encoding() != iata_encoding(),
{
    reveal_strlit("ISO-3166-1");
    reveal_strlit("ISO-3166-2");
    reveal_strlit("UN-LOCODE");
    reveal_strlit("IATA");
    assert(state_encoding()[9] != subdiv_encoding()[9]);
    assert(state_encoding().len() != locode_encoding().len());
    assert(state_encoding().len() != iata_encoding().len());
    assert(subdiv_encoding().len() != locode_encoding().len());
    assert(subdiv_encoding().len() != iata_encoding().len());
    assert(locode_encoding().len() != iata_encoding().len());
}

/// The key of an entity: its schema, a hyphen, and its id.
pub open spec fn key_text(encoding: Seq<char>, id: Seq<char>) -> Seq<char> {
    encoding + seq!['-'] + id
}

/// The key of the country with a code.
pub open spec fn state_key_text(code: Seq<char>) -> Seq<char> {
    key_text(state_encoding(), code)
}

/// The key of the subdivision with a code in the country with a code.
pub open spec fn subdiv_key_text(state: Seq<char>, subdiv: Seq<char>) -> Seq<char> {
    key_text(subdiv_encoding(), state + seq![':'] + subdiv)
}

/// Whether a key begins with a schema and a hyphen.
pub open spec fn has_head(key: Seq<char>, encoding: Seq<char>) -> bool {
    &&& key.len() > encoding.len()
    &&& key.subrange(0, encoding.len() as int) == encoding
    &&& key[encoding.len() as int] == '-'
}

/// What stands in a key behind a schema and a hyphen.
pub open spec fn rest_after(key: Seq<char>, encoding: Seq<char>) -> Seq<char> {
    key.subrange(encoding.len() as int + 1, key.len() as int)
}

/// The schema and the id of which an ASCII key is made, if it begins with
/// one of the four schemas and a hyphen.
pub open spec fn key_parts(key: Seq<char>) -> Option<(Seq<char>, Seq<char>)> {
    if !is_ascii_chars(key) {
        None
    } else if has_head(key, state_encoding()) {
        Some((state_encoding(), rest_after(key, state_encoding())))
    } else if has_head(key, subdiv_encoding()) {
        Some((subdiv_encoding(), rest_after(key, subdiv_encoding())))
    } else if has_head(key, locode_encoding()) {
        Some((locode_encoding(), rest_after(key, locode_encoding())))
    } else if has_head(key, iata_encoding()) {
        Some((iata_encoding(), rest_after(key, iata_encoding())))
    } else {
        None
    }
}

/// Whether an ASCII key begins with an ASCII schema and a hyphen.
fn begins_with(key: &str, encoding: &str) -> (r: bool)
    requires
        is_ascii_chars(key@),
        is_ascii_chars(encoding@),
    ensures
        r == has_head(key@, encoding@),
{
    broadcast use vstd::string::is_ascii_spec_bytes;

    let k = key.as_bytes();
    let e = encoding.as_bytes();
    proof {
        assert(vstd::string::is_ascii(key));
        assert(vstd::string::is_ascii(encoding));
        assert(key.spec_bytes() =~= Seq::new(key@.len(), |i: int| key@[i] as u8));
        assert(encoding.spec_bytes() =~= Seq::new(encoding@.len(), |i: int| encoding@[i] as u8));
    }
    let n: usize = e.len();
    if k.len() <= n {
        return false;
    }
    let mut i: usize = 0;
    while i < n
        invariant
            i <= n,
            n == encoding@.len(),
            n < key@.len(),
            is_ascii_chars(key@),
            is_ascii_chars(encoding@),
            k@.len() == key@.len(),
            e@.len() == encoding@.len(),
            forall|j: int| 0 <= j < key@.len() ==> k@[j] == key@[j] as u8,
            forall|j: int| 0 <= j < encoding@.len() ==> e@[j] == encoding@[j] as u8,
            forall|j: int| 0 <= j < i ==> key@[j] == encoding@[j],
        decreases n - i,
    {
        if k[i] != e[i] {
            assert(key@.subrange(0, n as int)[i as int] != encoding@[i as int]);
            return false;
        }
        proof {
            let a = key@[i as int];
            let b = encoding@[i as int];
            assert('\0' <= a && a <= '\u{7f}');
            assert('\0' <= b && b <= '\u{7f}');
            assert(a as u8 == b as u8);
            assert(a == b);
        }
        i += 1;
    }
    assert(key@.subrange(0, n as int) =~= encoding@);
    proof {
        let a = key@[n as int];
        assert('\0' <= a && a <= '\u{7f}');
        assert((a as u8 == 45) <==> a == '-');
    }
    k[n] == 45
}

/// What stands in an ASCII key behind a schema and a hyphen.
fn after_head(key: &str, encoding: &str) -> (r: String)
    requires
        is_ascii_chars(key@),
        has_head(key@, encoding@),
        is_ascii_chars(encoding@),
    ensures
        r@ == rest_after(key@, encoding@),
{
    let n: usize = encoding.unicode_len();
    let len: usize = key.unicode_len();
    key.substring_ascii(n + 1, len).to_owned()
}

/// The schema and the id of which a key is made.
pub fn split_key(key: &str) -> (r: Option<(String, String)>)
    ensures
        match r {
            Some(parts) => key_parts(key@) == Some((parts.0@, parts.1@)),
            None => key_parts(key@) is None,
        },
{
    if !key.is_ascii() {
        return None;
    }
    proof {
        reveal_strlit("ISO-3166-1");
        reveal_strlit("ISO-3166-2");
        reveal_strlit("UN-LOCODE");
        reveal_strlit("IATA");
    }
    if begins_with(key, "ISO-3166-1") {
        Some(("ISO-3166-1".to_owned(), after_head(key, "ISO-3166-1")))
    } else if begins_with(key, "ISO-3166-2") {
        Some(("ISO-3166-2".to_owned(), after_head(key, "ISO-3166-2")))
    } else if begins_with(key, "UN-LOCODE") {
        Some(("UN-LOCODE".to_owned(), after_head(key, "UN-LOCODE")))
    } else if begins_with(key, "IATA") {
        Some(("IATA".to_owned(), after_head(key, "IATA")))
    } else {
        None
    }
}

/// The pieces of the first `k` names that spaces part, in their order.
pub open spec fn tokens_upto(names: Seq<Seq<char>>, k: int) -> Seq<Seq<char>>
    decreases k,
{
    if k <= 0 {
        Seq::empty()
    } else {
        tokens_upto(names, k - 1) + segments(names[k - 1], ' ')
    }
}

/// The pieces of the names that spaces part.
pub open spec fn name_tokens(names: Seq<Seq<char>>) -> Seq<Seq<char>> {
    tokens_upto(names, names.len() as int)
}

/// Those of the first `n` pieces that are longer than three bytes, each
/// once, in their order.
pub open spec fn kept_words(tokens: Seq<Seq<char>>, n: int) -> Seq<Seq<char>>
    decreases n,
{
    if n <= 0 {
        Seq::empty()
    } else {
        let before = kept_words(tokens, n - 1);
        let w = tokens[n - 1];
        if bytes_of(w).len() > 3 && !before.contains(w) {
            before.push(w)
        } else {
            before
        }
    }
}

/// The words of an entity: the pieces of its names that are longer than
/// three bytes, each once.
pub open spec fn name_words(names: Seq<Seq<char>>) -> Seq<Seq<char>> {
    kept_words(name_tokens(names), name_tokens(names).len() as int)
}

/// A score with the penalty for a match by a single word taken off.
pub open spec fn penalized(s: Option<Score>) -> Option<Score> {
    match s {
        Some(x) => Some(
            Score { score: (x.score - SINGLE_WORD_MATCH_PENALTY) as i64, offset: x.offset },
        ),
        None => None,
    }
}

/// The best of the penalized scores that the query gives to the words.
pub open spec fn words_score(words: Seq<Seq<char>>, q: QueryView) -> Option<Score>
    decreases words.len(),
{
    if words.len() == 0 {
        None
    } else {
        better(
            words_score(words.drop_last(), q),
            penalized(match_score(q.exact_matches, q.not_exact_matches, words.last())),
        )
    }
}

/// A score divided by `d`, rounded towards zero.
pub open spec fn share(score: i64, d: int) -> int {
    if score >= 0 {
        (score as int) / d
    } else {
        -((-(score as int)) / d)
    }
}

impl LocData {
    /// The schema that has entities of this shape.
    pub open spec fn encoding(&self) -> Seq<char> {
        match self {
            LocData::St(_) => state_encoding(),
            LocData::Subdv(_) => subdiv_encoding(),
            LocData::Locd(_) => locode_encoding(),
            LocData::Airp(_) => iata_encoding(),
        }
    }

    /// Whether the names and codes of the payload are in normal form.
    pub open spec fn wf(&self) -> bool {
        match self {
            LocData::St(d) => d.wf(),
            LocData::Subdv(d) => d.wf(),
            LocData::Locd(d) => d.wf(),
            LocData::Airp(d) => d.wf(),
        }
    }

    /// Whether the payload holds what the fields say under the schema.
    pub open spec fn decoded_from(&self, tag: Seq<char>, fields: Seq<(Seq<char>, Seq<char>)>)
        -> bool {
        &&& tag == self.encoding()
        &&& match self {
            LocData::St(d) => d.decoded_from(fields),
            LocData::Subdv(d) => d.decoded_from(fields),
            LocData::Locd(d) => d.decoded_from(fields),
            LocData::Airp(d) => d.decoded_from(fields),
        }
    }

    /// The names under which the entity is found.
    pub open spec fn names(&self) -> Seq<Seq<char>> {
        match self {
            LocData::St(d) => d.names(),
            LocData::Subdv(d) => seq![d.name@],
            LocData::Locd(d) => seq![d.name@],
            LocData::Airp(d) => seq![d.name@],
        }
    }

    /// The name of the entity.
    pub open spec fn name(&self) -> Seq<char> {
        match self {
            LocData::St(d) => d.name@,
            LocData::Subdv(d) => d.name@,
            LocData::Locd(d) => d.name@,
            LocData::Airp(d) => d.name@,
        }
    }

    /// The codes under which the entity is found.
    pub open spec fn codes(&self) -> Seq<Seq<char>> {
        match self {
            LocData::St(d) => d.codes(),
            LocData::Subdv(d) => seq![d.subcode@],
            LocData::Locd(d) => seq![d.subcode@],
            LocData::Airp(d) => seq![d.iata@],
        }
    }

    /// The texts of the payload that take part in a search, in the order of
    /// the fields.
    pub open spec fn payload_texts(&self) -> Seq<Seq<char>> {
        match self {
            LocData::St(d) => seq![d.name@, d.short@, d.alpha2@, d.alpha3@, d.continent@],
            LocData::Subdv(d) => seq![d.name@, d.supercode@, d.subcode@, d.level@],
            LocData::Locd(d) => seq![d.name@, d.supercode@, d.subcode@] + text_or_none(
                d.subdivision_name,
            ) + text_or_none(d.subdivision_code) + seq![d.function_code@],
            LocData::Airp(d) => seq![d.name@, d.iata@, d.airport_type@] + text_or_none(d.city)
                + seq![d.country@, d.region@],
        }
    }

    /// The code of the country that the entity is or lies in.
    pub open spec fn state_code(&self) -> Seq<char> {
        match self {
            LocData::St(d) => d.alpha2@,
            LocData::Subdv(d) => d.supercode@,
            LocData::Locd(d) => d.supercode@,
            LocData::Airp(d) => d.country@,
        }
    }

    /// The code of the subdivision that the entity is or lies in, as far
    /// as the payload says it outright.
    pub open spec fn subdiv_code(&self) -> Option<Seq<char>> {
        match self {
            LocData::St(_) => None,
            LocData::Subdv(d) => Some(d.subcode@),
            LocData::Locd(d) => opt_text(d.subdivision_code),
            LocData::Airp(_) => None,
        }
    }

    /// The keys of the country and of the subdivision that the entity lies
    /// in. A country lies in none. A subdivision lies in its country. A
    /// place lies in its country, and in its subdivision where it names
    /// one. An airport lies in its country, and in the subdivision whose
    /// code is the second of the pieces of its region that hyphens part,
    /// where the region has one.
    pub open spec fn parent_texts(&self) -> (Option<Seq<char>>, Option<Seq<char>>) {
        match self {
            LocData::St(_) => (None, None),
            LocData::Subdv(d) => (Some(state_key_text(d.supercode@)), None),
            LocData::Locd(d) => (
                Some(state_key_text(d.supercode@)),
                match d.subdivision_code {
                    Some(c) => Some(subdiv_key_text(d.supercode@, c@)),
                    None => None,
                },
            ),
            LocData::Airp(d) => (
                Some(state_key_text(d.country@)),
                match region_code(d.region@) {
                    Some(c) => Some(subdiv_key_text(d.country@, c)),
                    None => None,
                },
            ),
        }
    }

    /// What an entity of this shape adds to the score of one that lies in
    /// it: a half of its own score for a country, a third for a
    /// subdivision, a quarter for a place, nothing for an airport.
    pub open spec fn boost(&self, score: i64) -> int {
        match self {
            LocData::St(_) => share(score, 2),
            LocData::Subdv(_) => share(score, 3),
            LocData::Locd(_) => share(score, 4),
            LocData::Airp(_) => 0,
        }
    }

    /// The score that the query gives to the entity by its shape: a
    /// country and a subdivision by a code, else by the name; a place and
    /// an airport by the better of name and code.
    pub open spec fn shape_score(&self, q: QueryView) -> Option<Score> {
        match self {
            LocData::St(d) => match best_code(
                q.codes,
                d.codes(),
                (SCORE_SOFT_MAX + STATE_CODE_BOOST) as i64,
            ) {
                Some(c) => Some(c),
                None => match_score(q.exact_matches, q.not_exact_matches, d.name@),
            },
            LocData::Subdv(d) => match best_code(
                q.codes,
                seq![d.subcode@],
                (SCORE_SOFT_MAX + SUBDIV_CODE_BOOST) as i64,
            ) {
                Some(c) => Some(c),
                None => match_score(q.exact_matches, q.not_exact_matches, d.name@),
            },
            LocData::Locd(d) => better(
                match_score(q.exact_matches, q.not_exact_matches, d.name@),
                match_score(q.exact_matches, q.not_exact_matches, d.subcode@),
            ),
            LocData::Airp(d) => better(
                match_score(q.exact_matches, q.not_exact_matches, d.name@),
                match_score(q.exact_matches, q.not_exact_matches, d.iata@),
            ),
        }
    }

    /// The names of an entity whose texts are in normal form are in normal
    /// form.
    pub proof fn lemma_names_normal(&self)
        requires
            self.wf(),
        ensures
            forall|i: int| 0 <= i < self.names().len() ==> is_normal(#[trigger] self.names()[i]),
    {
    }

    /// The texts of the payload that take part in a search.
    pub fn get_payload_texts(&self) -> (r: Vec<String>)
        ensures
            texts(r@) == self.payload_texts(),
    {
        let mut r: Vec<String> = Vec::new();
        match self {
            LocData::St(d) => {
                r.push(d.name.clone());
                r.push(d.short.clone());
                r.push(d.alpha2.clone());
                r.push(d.alpha3.clone());
                r.push(d.continent.clone());
            },
            LocData::Subdv(d) => {
                r.push(d.name.clone());
                r.push(d.supercode.clone());
                r.push(d.subcode.clone());
                r.push(d.level.clone());
            },
            LocData::Locd(d) => {
                r.push(d.name.clone());
                r.push(d.supercode.clone());
                r.push(d.subcode.clone());
                match &d.subdivision_name {
                    Some(t) => {
                        r.push(t.clone());
                    },
                    None => {},
                }
                match &d.subdivision_code {
                    Some(t) => {
                        r.push(t.clone());
                    },
                    None => {},
                }
                r.push(d.function_code.clone());
            },
            LocData::Airp(d) => {
                r.push(d.name.clone());
                r.push(d.iata.clone());
                r.push(d.airport_type.clone());
                match &d.city {
                    Some(t) => {
                        r.push(t.clone());
                    },
                    None => {},
                }
                r.push(d.country.clone());
                r.push(d.region.clone());
            },
        }
        assert(texts(r@) =~= self.payload_texts());
        r
    }

    /// The code of the country that the entity is or lies in.
    pub fn get_state(&self) -> (r: &String)
        ensures
            r@ == self.state_code(),
    {
        match self {
            LocData::St(s) => &s.alpha2,
            LocData::Subdv(sd) => &sd.supercode,
            LocData::Locd(l) => &l.supercode,
            LocData::Airp(a) => &a.country,
        }
    }

    /// The code of the subdivision that the entity is or lies in, as far
    /// as the payload says it outright.
    pub fn get_subdiv(&self) -> (r: Option<&String>)
        ensures
            match r {
                Some(t) => self.subdiv_code() == Some(t@),
                None => self.subdiv_code() is None,
            },
    {
        match self {
            LocData::St(_) => None,
            LocData::Subdv(sd) => Some(&sd.subcode),
            LocData::Locd(l) => match &l.subdivision_code {
                Some(c) => Some(c),
                None => None,
            },
            LocData::Airp(_) => None,
        }
    }
}

/// The number under which the key of the country with a code stands.
pub fn state_key(pool: &Interner, state_code: &str) -> (r: Option<Sym>)
    requires
        pool.wf(),
    ensures
        is_sym_of(pool@, r, state_key_text(state_code@)),
{
    let key = append("ISO-3166-1-", state_code);
    proof {
        reveal_strlit("ISO-3166-1-");
        reveal_strlit("ISO-3166-1");
        assert(key@ =~= state_key_text(state_code@));
    }
    pool.from_existing(key.as_str())
}

/// The number under which the key of a subdivision stands.
pub fn subdiv_key(pool: &Interner, state_code: &str, subdiv_code: &str) -> (r: Option<Sym>)
    requires
        pool.wf(),
    ensures
        is_sym_of(pool@, r, subdiv_key_text(state_code@, subdiv_code@)),
{
    let head = append("ISO-3166-2-", state_code);
    let mid = append(head.as_str(), ":");
    let key = append(mid.as_str(), subdiv_code);
    proof {
        reveal_strlit("ISO-3166-2-");
        reveal_strlit("ISO-3166-2");
        reveal_strlit(":");
        assert(key@ =~= subdiv_key_text(state_code@, subdiv_code@));
    }
    pool.from_existing(key.as_str())
}

/// The second of the pieces of an airport's region that hyphens part, if
/// there is one.
pub open spec fn region_code(region: Seq<char>) -> Option<Seq<char>> {
    let parts = segments(region, '-');
    if parts.len() > 1 {
        Some(parts[1])
    } else {
        None
    }
}

/// The second of the pieces of an airport's region that hyphens part, if
/// there is one and the corpus knows it.
pub open spec fn region_subdiv(pool: Seq<Seq<char>>, region: Seq<char>) -> Option<Seq<char>> {
    match region_code(region) {
        Some(code) => if pool.contains(code) {
            Some(code)
        } else {
            None
        },
        None => None,
    }
}

/// Whether an airport cannot be decoded for its elevation: every required
/// field is there, and the elevation is there and writes no number.
pub open spec fn elevation_fails(fields: Seq<(Seq<char>, Seq<char>)>) -> bool {
    &&& first_missing(
        fields,
        seq!["name"@, "iata"@, "type"@, "country"@, "region"@, "y"@, "x"@],
    ) is None
    &&& field(fields, "elevation"@) is Some
    &&& parsed_i16(bytes_of(field(fields, "elevation"@).unwrap())) is None
}

/// Whether a schema is one of the four that the corpus has.
pub open spec fn known_schema(tag: Seq<char>) -> bool {
    tag == state_encoding() || tag == subdiv_encoding() || tag == locode_encoding() || tag
        == iata_encoding()
}

/// Whether a schema is one of the four that the corpus has.
pub fn is_known_schema(tag: &str) -> (r: bool)
    ensures
        r == known_schema(tag@),
{
    str_eq(tag, "ISO-3166-1") || str_eq(tag, "ISO-3166-2") || str_eq(tag, "UN-LOCODE") || str_eq(
        tag,
        "IATA",
    )
}

/// The fields that a schema requires, in the order in which they are
/// asked for.
pub open spec fn required_fields(tag: Seq<char>) -> Seq<Seq<char>> {
    if tag == state_encoding() {
        seq!["name"@, "short"@, "alpha2"@, "alpha3"@, "continent"@]
    } else if tag == subdiv_encoding() {
        seq!["name"@, "supercode"@, "subcode"@, "level"@]
    } else if tag == locode_encoding() {
        seq!["name"@, "supercode"@, "subcode"@, "function_code"@]
    } else {
        seq!["name"@, "iata"@, "type"@, "country"@, "region"@, "y"@, "x"@]
    }
}

/// Whether a record with this schema and these fields can be decoded: the
/// schema is known, no required field is missing, and the elevation of an
/// airport, where there is one, writes a number.
pub open spec fn decodable(tag: Seq<char>, fields: Seq<(Seq<char>, Seq<char>)>) -> bool {
    &&& known_schema(tag)
    &&& first_missing(fields, required_fields(tag)) is None
    &&& !(tag != state_encoding() && tag != subdiv_encoding() && tag != locode_encoding()
        && elevation_fails(fields))
}

/// Whether `e` is the error that a record with this schema, one of the
/// four, and these fields gives.
pub open spec fn decode_fails(e: DecodeError, tag: Seq<char>, fields: Seq<(Seq<char>, Seq<char>)>)
    -> bool {
    if tag == state_encoding() {
        lacks_first(e, fields, seq!["name"@, "short"@, "alpha2"@, "alpha3"@, "continent"@])
    } else if tag == subdiv_encoding() {
        lacks_first(e, fields, seq!["name"@, "supercode"@, "subcode"@, "level"@])
    } else if tag == locode_encoding() {
        lacks_first(e, fields, seq!["name"@, "supercode"@, "subcode"@, "function_code"@])
    } else {
        ||| lacks_first(
            e,
            fields,
            seq!["name"@, "iata"@, "type"@, "country"@, "region"@, "y"@, "x"@],
        )
        ||| e is BadElevation && elevation_fails(fields)
    }
}

/// The texts of two sequences put together are their texts put together.
pub proof fn lemma_texts_concat(a: Seq<String>, b: Seq<String>)
    ensures
        texts(a + b) == texts(a) + texts(b),
{
    assert(texts(a + b) =~= texts(a) + texts(b));
}

/// A copy of each string.
pub fn clone_strings(v: &[String]) -> (r: Vec<String>)
    ensures
        texts(r@) == texts(v@),
{
    let mut r: Vec<String> = Vec::new();
    let mut i: usize = 0;
    while i < v.len()
        invariant
            i <= v@.len(),
            r@ == v@.subrange(0, i as int),
        decreases v.len() - i,
    {
        let copy = v[i].clone();
        r.push(copy);
        assert(r@ =~= v@.subrange(0, i + 1));
        i += 1;
    }
    proof {
        assert(v@.subrange(0, v@.len() as int) == v@);
    }
    r
}

/// The pieces of the names that spaces part.
fn tokens_of(names: &[String]) -> (tokens: Vec<String>)
    requires
        forall|i: int| 0 <= i < names@.len() ==> is_ascii_chars(#[trigger] names@[i]@),
    ensures
        texts(tokens@) == name_tokens(texts(names@)),
{
    let ghost all = texts(names@);
    let mut tokens: Vec<String> = Vec::new();
    let mut i: usize = 0;
    while i < names.len()
        invariant
            i <= names@.len(),
            all == texts(names@),
            forall|k: int| 0 <= k < names@.len() ==> is_ascii_chars(#[trigger] names@[k]@),
            texts(tokens@) == tokens_upto(all, i as int),
        decreases names.len() - i,
    {
        let mut parts = split_ascii(names[i].as_str(), 32);
        proof {
            assert(32u8 as char == ' ');
            assert(all[i as int] == names@[i as int]@);
            assert(texts(tokens@ + parts@) =~= texts(tokens@) + texts(parts@));
        }
        tokens.append(&mut parts);
        i += 1;
    }
    tokens
}

/// The pieces of the names that are longer than three bytes, each once.
fn words_of(names: &[String]) -> (r: Vec<String>)
    requires
        forall|i: int| 0 <= i < names@.len() ==> is_ascii_chars(#[trigger] names@[i]@),
    ensures
        texts(r@) == name_words(texts(names@)),
{
    let tokens = tokens_of(names);
    let ghost pieces = texts(tokens@);
    let mut words: Vec<String> = Vec::new();
    let mut j: usize = 0;
    while j < tokens.len()
        invariant
            j <= tokens@.len(),
            pieces == texts(tokens@),
            texts(words@) == kept_words(pieces, j as int),
        decreases tokens.len() - j,
    {
        let w = tokens[j].as_str();
        assert(pieces[j as int] == w@);
        if byte_len(w) > 3 && !contains_text(&words, w) {
            let copy = w.to_owned();
            proof {
                assert(texts(words@.push(copy)) =~= texts(words@).push(w@));
            }
            words.push(copy);
        }
        j += 1;
    }
    words
}

/// An entity of the corpus.
#[derive(Debug)]
pub struct Location {
    /// The schema, a hyphen, and the id.
    pub key: String,
    /// The schema of the entity.
    pub encoding: String,
    /// The id of the entity within its schema, in normal form.
    pub id: String,
    /// The pieces of the names that are longer than three bytes.
    pub words: ShortList,
    /// The payload.
    pub data: LocData,
}

impl Location {
    /// Whether the entity is as `from_raw` makes one: the schema is that of
    /// the shape, the key is made of schema and id, the texts are in
    /// normal form, and the words are those of the names.
    pub open spec fn wf(&self) -> bool {
        &&& self.data.wf()
        &&& self.encoding@ == self.data.encoding()
        &&& is_normal(self.id@)
        &&& self.key@ == key_text(self.encoding@, self.id@)
        &&& texts(self.words@) == name_words(self.data.names())
    }

    /// The score that a query gives to the entity: none if the query asks
    /// for another country, else the better of the score of the words and
    /// the score by shape.
    pub open spec fn search_score(&self, q: QueryView) -> Option<Score> {
        if q.state_filter is Some && q.state_filter != Some(self.data.state_code()) {
            None
        } else {
            better(words_score(texts(self.words@), q), self.data.shape_score(q))
        }
    }

    /// The code of the subdivision that the entity is or lies in. That of
    /// an airport is the second piece of its region, if the corpus knows
    /// it.
    pub open spec fn subdiv_text(&self, pool: Seq<Seq<char>>) -> Option<Seq<char>> {
        match self.data {
            LocData::Airp(a) => region_subdiv(pool, a.region@),
            _ => self.data.subdiv_code(),
        }
    }

    /// Every text that the entity brings to the corpus: its key, schema
    /// and id, its words, the texts of its payload, and the pieces of its
    /// names.
    pub open spec fn texts(&self) -> Seq<Seq<char>> {
        seq![self.key@, self.encoding@, self.id@] + texts(self.words@) + self.data.payload_texts()
            + name_tokens(self.data.names())
    }

    /// The texts under which the word index files the entity: its words,
    /// its codes and its names.
    pub open spec fn index_words(&self) -> Seq<Seq<char>> {
        texts(self.words@) + self.data.codes() + self.data.names()
    }

    /// Each text under which the word index files the entity is one of
    /// the texts that the entity brings to the corpus.
    pub proof fn lemma_index_words_in_texts(&self)
        ensures
            forall|i: int|
                0 <= i < self.index_words().len() ==> self.texts().contains(
                    #[trigger] self.index_words()[i],
                ),
    {
        let all = self.texts();
        let n = self.words@.len() as int;
        let payload = self.data.payload_texts();
        assert forall|j: int| 0 <= j < payload.len() implies all.contains(
            #[trigger] payload[j],
        ) by {
            assert(all[3 + n + j] == payload[j]);
        }
        assert forall|i: int| 0 <= i < self.index_words().len() implies all.contains(
            #[trigger] self.index_words()[i],
        ) by {
            let t = self.index_words()[i];
            if i < n {
                assert(all[3 + i] == t);
            } else {
                match self.data {
                    LocData::St(d) => {
                        assert(payload[0] == d.name@);
                        assert(payload[1] == d.short@);
                        assert(payload[2] == d.alpha2@);
                        assert(payload[3] == d.alpha3@);
                    },
                    LocData::Subdv(d) => {
                        assert(payload[0] == d.name@);
                        assert(payload[2] == d.subcode@);
                    },
                    LocData::Locd(d) => {
                        assert(payload[0] == d.name@);
                        assert(payload[2] == d.subcode@);
                    },
                    LocData::Airp(d) => {
                        assert(payload[0] == d.name@);
                        assert(payload[1] == d.iata@);
                    },
                }
            }
        }
    }

    /// The key of an entity parses back to its schema and its id.
    pub proof fn lemma_key_parses_back(&self)
        requires
            self.wf(),
        ensures
            key_parts(self.key@) == Some((self.encoding@, self.id@)),
    {
        reveal_strlit("ISO-3166-1");
        reveal_strlit("ISO-3166-2");
        reveal_strlit("UN-LOCODE");
        reveal_strlit("IATA");
        let enc = self.encoding@;
        let key = self.key@;
        let id = self.id@;
        assert(key.len() == enc.len() + 1 + id.len());
        assert(key.subrange(0, enc.len() as int) =~= enc);
        assert(key[enc.len() as int] == '-');
        assert(rest_after(key, enc) =~= id);
        assert(is_ascii_chars(key)) by {
            assert forall|i: int| 0 <= i < key.len() implies '\0' <= #[trigger] key[i] && key[i]
                <= '\u{7f}' by {
                if i < enc.len() {
                    assert(key[i] == enc[i]);
                } else if i > enc.len() {
                    assert(key[i] == id[i - enc.len() - 1]);
                }
            }
        }
        match self.data {
            LocData::St(_) => {},
            LocData::Subdv(_) => {
                assert(key[9] == '2');
            },
            LocData::Locd(_) => {
                assert(key[0] == 'U');
            },
            LocData::Airp(_) => {
                assert(key[1] == 'A');
            },
        }
    }

    /// An entity whose name is among the exact terms of a query, and whose
    /// country the query does not rule out, scores the soft maximum at
    /// least.
    pub proof fn lemma_named_scores_high(&self, q: QueryView)
        requires
            has_term(q.exact_matches, self.data.name()),
            q.state_filter is None || q.state_filter == Some(self.data.state_code()),
        ensures
            self.search_score(q) matches Some(s) && s.score >= SCORE_SOFT_MAX,
    {
        lemma_exact_term_scores(q.exact_matches, q.not_exact_matches, self.data.name());
        match self.data {
            LocData::St(d) => {
                lemma_best_code_score(
                    q.codes,
                    d.codes(),
                    (SCORE_SOFT_MAX + STATE_CODE_BOOST) as i64,
                );
            },
            LocData::Subdv(d) => {
                lemma_best_code_score(
                    q.codes,
                    seq![d.subcode@],
                    (SCORE_SOFT_MAX + SUBDIV_CODE_BOOST) as i64,
                );
            },
            LocData::Locd(d) => {},
            LocData::Airp(d) => {},
        }
    }

    /// Decodes a record of one of the four schemas: the payload by its
    /// schema, the id in normal form, the key from both, and the words from
    /// the names. A record of another schema is not to be handed in: it is
    /// fatal to the batch that holds it, and `is_known_schema` tells.
    pub fn from_raw(r: AnyLocation) -> (res: Result<Location, DecodeError>)
        requires
            known_schema(r.c@),
        ensures
            match res {
                Ok(loc) => {
                    &&& loc.wf()
                    &&& loc.encoding@ == r.c@
                    &&& loc.id@ == normalized(r.i@)
                    &&& loc.data.decoded_from(r.c@, pairs_of(r.d@))
                },
                Err(e) => decode_fails(e, r.c@, pairs_of(r.d@)),
            },
            res is Ok <==> decodable(r.c@, pairs_of(r.d@)),
    {
        proof {
            reveal_with_fuel(first_missing, 8);
        }
        let tag = r.c.as_str();
        let data = if str_eq(tag, "ISO-3166-1") {
            match State::from_raw(&r.d) {
                Ok(d) => LocData::St(d),
                Err(e) => {
                    return Err(e);
                },
            }
        } else if str_eq(tag, "ISO-3166-2") {
            match Subdivision::from_raw(&r.d) {
                Ok(d) => LocData::Subdv(d),
                Err(e) => {
                    return Err(e);
                },
            }
        } else if str_eq(tag, "UN-LOCODE") {
            match Locode::from_raw(&r.d) {
                Ok(d) => LocData::Locd(d),
                Err(e) => {
                    return Err(e);
                },
            }
        } else {
            let raw = match AirportRaw::from_fields(&r.d) {
                Ok(raw) => raw,
                Err(e) => {
                    return Err(e);
                },
            };
            match Airport::from_raw(raw) {
                Ok(d) => LocData::Airp(d),
                Err(e) => {
                    proof {
                        reveal_with_fuel(first_missing, 8);
                    }
                    return Err(e);
                },
            }
        };
        let id = normalize(r.i.as_str());
        let head = append(tag, "-");
        let key = append(head.as_str(), id.as_str());
        proof {
            reveal_strlit("-");
            assert(key@ =~= key_text(r.c@, id@));
        }
        let names = match &data {
            LocData::St(d) => d.get_names(),
            LocData::Subdv(d) => d.get_names(),
            LocData::Locd(d) => d.get_names(),
            LocData::Airp(d) => d.get_names(),
        };
        proof {
            assert(texts(names@) == data.names());
            data.lemma_names_normal();
            assert forall|i: int| 0 <= i < names@.len() implies is_ascii_chars(
                #[trigger] names@[i]@,
            ) by {
                assert(texts(names@)[i] == names@[i]@);
            }
        }
        let words = ShortList::from_vec(words_of(items_of(&names)));
        Ok(Location { key, encoding: r.c, id, words, data })
    }

    /// The score that a query gives to the entity.
    pub fn search(&self, t: &SearchTerm) -> (r: Option<Score>)
        ensures
            r == self.search_score(t@),
    {
        match &t.state_filter {
            Some(filter) => {
                if !str_eq(self.get_state().as_str(), filter.as_str()) {
                    return None;
                }
            },
            None => {},
        }
        let ghost words = texts(self.words@);
        let ghost q = t@;
        let list = items_of(&self.words);
        let mut by_words: Option<Score> = None;
        let mut i: usize = 0;
        while i < list.len()
            invariant
                i <= list@.len(),
                words == texts(list@),
                q == t@,
                by_words == words_score(words.subrange(0, i as int), q),
            decreases list.len() - i,
        {
            proof {
                assert(words.subrange(0, i + 1).drop_last() == words.subrange(0, i as int));
                assert(words.subrange(0, i + 1).last() == list@[i as int]@);
            }
            let found = match t.match_str(list[i].as_str()) {
                Some(s) => Some(
                    Score { score: s.score - SINGLE_WORD_MATCH_PENALTY, offset: s.offset },
                ),
                None => None,
            };
            by_words = Score::better(by_words, found);
            i += 1;
        }
        proof {
            assert(words.subrange(0, words.len() as int) == words);
        }
        let by_shape: Option<Score> = match &self.data {
            LocData::St(d) => {
                let codes = d.get_codes();
                match t.codes_match(items_of(&codes), SCORE_SOFT_MAX + STATE_CODE_BOOST) {
                    Some(c) => Some(c),
                    None => t.match_str(d.name.as_str()),
                }
            },
            LocData::Subdv(d) => {
                let codes = d.get_codes();
                match t.codes_match(items_of(&codes), SCORE_SOFT_MAX + SUBDIV_CODE_BOOST) {
                    Some(c) => Some(c),
                    None => t.match_str(d.name.as_str()),
                }
            },
            LocData::Locd(d) => Score::better(
                t.match_str(d.name.as_str()),
                t.match_str(d.subcode.as_str()),
            ),
            LocData::Airp(d) => Score::better(
                t.match_str(d.name.as_str()),
                t.match_str(d.iata.as_str()),
            ),
        };
        Score::better(by_words, by_shape)
    }

    /// Every text that the entity brings to the corpus.
    pub fn all_texts(&self) -> (r: Vec<String>)
        requires
            self.data.wf(),
        ensures
            texts(r@) == self.texts(),
    {
        let mut r: Vec<String> = Vec::new();
        r.push(self.key.clone());
        r.push(self.encoding.clone());
        r.push(self.id.clone());
        assert(texts(r@) =~= seq![self.key@, self.encoding@, self.id@]);
        let mut words = clone_strings(items_of(&self.words));
        proof {
            lemma_texts_concat(r@, words@);
        }
        r.append(&mut words);
        let mut payload = self.data.get_payload_texts();
        proof {
            lemma_texts_concat(r@, payload@);
        }
        r.append(&mut payload);
        let names = self.get_names();
        proof {
            self.data.lemma_names_normal();
            assert forall|i: int| 0 <= i < names@.len() implies is_ascii_chars(
                #[trigger] names@[i]@,
            ) by {
                assert(texts(names@)[i] == names@[i]@);
            }
        }
        let mut pieces = tokens_of(items_of(&names));
        proof {
            lemma_texts_concat(r@, pieces@);
        }
        r.append(&mut pieces);
        r
    }

    /// The texts under which the word index files the entity.
    pub fn get_index_words(&self) -> (r: Vec<String>)
        ensures
            texts(r@) == self.index_words(),
    {
        let mut r = clone_strings(items_of(&self.words));
        let mut codes = self.get_codes().to_vec();
        proof {
            lemma_texts_concat(r@, codes@);
        }
        r.append(&mut codes);
        let mut names = self.get_names().to_vec();
        proof {
            lemma_texts_concat(r@, names@);
        }
        r.append(&mut names);
        r
    }

    /// The names under which the entity is found.
    pub fn get_names(&self) -> (r: ShortList)
        ensures
            texts(r@) == self.data.names(),
    {
        match &self.data {
            LocData::St(st) => st.get_names(),
            LocData::Subdv(sd) => sd.get_names(),
            LocData::Locd(locd) => locd.get_names(),
            LocData::Airp(ap) => ap.get_names(),
        }
    }

    /// The codes under which the entity is found.
    pub fn get_codes(&self) -> (r: ShortList)
        ensures
            texts(r@) == self.data.codes(),
    {
        match &self.data {
            LocData::St(st) => st.get_codes(),
            LocData::Subdv(sd) => sd.get_codes(),
            LocData::Locd(lc) => lc.get_codes(),
            LocData::Airp(ap) => ap.get_codes(),
        }
    }

    /// The numbers under which the keys of the country and of the
    /// subdivision that the entity lies in stand in the table, as far as
    /// the table holds them.
    pub fn get_parents(&self, pool: &Interner) -> (r: (Option<Sym>, Option<Sym>))
        requires
            pool.wf(),
            self.data.wf(),
        ensures
            match self.data.parent_texts().0 {
                Some(t) => is_sym_of(pool@, r.0, t),
                None => r.0 is None,
            },
            match self.data.parent_texts().1 {
                Some(t) => is_sym_of(pool@, r.1, t),
                None => r.1 is None,
            },
    {
        match &self.data {
            LocData::St(_) => (None, None),
            LocData::Subdv(sd) => (state_key(pool, sd.supercode.as_str()), None),
            LocData::Locd(l) => (
                state_key(pool, l.supercode.as_str()),
                match &l.subdivision_code {
                    Some(c) => subdiv_key(pool, l.supercode.as_str(), c.as_str()),
                    None => None,
                },
            ),
            LocData::Airp(a) => {
                let parts = split_ascii(a.region.as_str(), 45);
                assert(45u8 as char == '-');
                let subdivision = if parts.len() > 1 {
                    assert(texts(parts@)[1] == parts@[1]@);
                    subdiv_key(pool, a.country.as_str(), parts[1].as_str())
                } else {
                    None
                };
                (state_key(pool, a.country.as_str()), subdivision)
            },
        }
    }

    /// What the entity, as a parent with this score, adds to the score of
    /// an entity that lies in it.
    pub fn parent_boost(&self, score: i64) -> (r: i64)
        ensures
            r == self.data.boost(score),
    {
        match &self.data {
            LocData::St(_) => score / 2,
            LocData::Subdv(_) => score / 3,
            LocData::Locd(_) => score / 4,
            LocData::Airp(_) => 0,
        }
    }

    /// The code of the country that the entity is or lies in.
    pub fn get_state(&self) -> (r: &String)
        ensures
            r@ == self.data.state_code(),
    {
        self.data.get_state()
    }

    /// The code of the subdivision that the entity is or lies in.
    pub fn get_subdiv(&self, pool: &Interner) -> (r: Option<String>)
        requires
            pool.wf(),
            self.data.wf(),
        ensures
            opt_text(r) == self.subdiv_text(pool@),
    {
        match &self.data {
            LocData::St(_) => None,
            LocData::Subdv(sd) => Some(sd.subcode.clone()),
            LocData::Locd(loc) => match &loc.subdivision_code {
                Some(c) => Some(c.clone()),
                None => None,
            },
            LocData::Airp(a) => {
                let parts = split_ascii(a.region.as_str(), 45);
                assert(45u8 as char == '-');
                if parts.len() > 1 {
                    assert(texts(parts@)[1] == parts@[1]@);
                    if pool.from_existing(parts[1].as_str()).is_some() {
                        Some(parts[1].clone())
                    } else {
                        None
                    }
                } else {
                    None
                }
            },
        }
    }
}

/// The text of a field, or the empty text where the field is missing.
pub open spec fn text_or_empty(t: Option<Seq<char>>) -> Seq<char> {
    match t {
        Some(text) => text,
        None => Seq::empty(),
    }
}

/// A copy of the text of a field, or the empty text where there is none.
fn or_empty(found: Option<&String>) -> (r: String)
    ensures
        r@ == text_or_empty(
            match found {
                Some(t) => Some(t@),
                None => None,
            },
        ),
{
    match found {
        Some(t) => t.clone(),
        None => String::new(),
    }
}

/// A row of the table of UN/LOCODE places.
#[derive(Debug)]
pub struct CsvLocode {
    pub country: String,
    pub subcode: String,
    pub name: String,
    pub name_wo_diacritics: String,
    pub subdivision_code: String,
    pub status: String,
    pub function: String,
    pub date: String,
    pub iata_code: String,
    pub coordinates: Option<String>,
}

impl CsvLocode {
    /// Whether the row holds what the fields say: the country and the
    /// code as they are, each other text as it is or empty where the
    /// field is missing, and the coordinates where they are given.
    pub open spec fn read_from(&self, fields: Seq<(Seq<char>, Seq<char>)>) -> bool {
        &&& field(fields, "country"@) == Some(self.country@)
        &&& field(fields, "subcode"@) == Some(self.subcode@)
        &&& self.name@ == text_or_empty(field(fields, "name"@))
        &&& self.name_wo_diacritics@ == text_or_empty(field(fields, "name_wo_diacritics"@))
        &&& self.subdivision_code@ == text_or_empty(field(fields, "subdivision_code"@))
        &&& self.status@ == text_or_empty(field(fields, "status"@))
        &&& self.function@ == text_or_empty(field(fields, "function"@))
        &&& self.date@ == text_or_empty(field(fields, "date"@))
        &&& self.iata_code@ == text_or_empty(field(fields, "iata_code"@))
        &&& opt_text(self.coordinates) == field(fields, "coordinates"@)
    }

    /// Reads a row from its fields. The country and the code are
    /// required, in that order.
    pub fn from_fields(fields: &Vec<(String, String)>) -> (r: Result<CsvLocode, DecodeError>)
        ensures
            match r {
                Ok(row) => row.read_from(pairs_of(fields@)),
                Err(e) => lacks_first(e, pairs_of(fields@), seq!["country"@, "subcode"@]),
            },
    {
        proof {
            reveal_with_fuel(first_missing, 3);
        }
        let country = match extract_field(fields, "country") {
            Ok(v) => v.clone(),
            Err(e) => {
                return Err(e);
            },
        };
        let subcode = match extract_field(fields, "subcode") {
            Ok(v) => v.clone(),
            Err(e) => {
                return Err(e);
            },
        };
        let coordinates = match lookup(fields, "coordinates") {
            Some(v) => Some(v.clone()),
            None => None,
        };
        Ok(
            CsvLocode {
                country,
                subcode,
                name: or_empty(lookup(fields, "name")),
                name_wo_diacritics: or_empty(lookup(fields, "name_wo_diacritics")),
                subdivision_code: or_empty(lookup(fields, "subdivision_code")),
                status: or_empty(lookup(fields, "status")),
                function: or_empty(lookup(fields, "function")),
                date: or_empty(lookup(fields, "date")),
                iata_code: or_empty(lookup(fields, "iata_code")),
                coordinates,
            },
        )
    }

    /// The key of the place of the row: the schema of the places, then the
    /// country and the code of the place in normal form with a colon
    /// between them.
    pub fn key(&self) -> (r: String)
        ensures
            r@ == key_text(
                locode_encoding(),
                normalized(self.country@) + seq![':'] + normalized(self.subcode@),
            ),
    {
        let country = normalize(self.country.as_str());
        let subcode = normalize(self.subcode.as_str());
        let head = append("UN-LOCODE-", country.as_str());
        let mid = append(head.as_str(), ":");
        let key = append(mid.as_str(), subcode.as_str());
        proof {
            reveal_strlit("UN-LOCODE-");
            reveal_strlit("UN-LOCODE");
            reveal_strlit(":");
            assert(key@ =~= key_text(
                locode_encoding(),
                normalized(self.country@) + seq![':'] + normalized(self.subcode@),
            ));
        }
        key
    }

    /// The key of the subdivision of the row.
    pub fn subdiv_key(&self) -> (r: String)
        ensures
            r@ == subdiv_key_text(normalized(self.country@), normalized(self.subdivision_code@)),
    {
        let country = normalize(self.country.as_str());
        let subdiv = normalize(self.subdivision_code.as_str());
        let head = append("ISO-3166-2-", country.as_str());
        let mid = append(head.as_str(), ":");
        let key = append(mid.as_str(), subdiv.as_str());
        proof {
            reveal_strlit("ISO-3166-2-");
            reveal_strlit("ISO-3166-2");
            reveal_strlit(":");
            assert(key@ =~= subdiv_key_text(
                normalized(self.country@),
                normalized(self.subdivision_code@),
            ));
        }
        key
    }

    /// The key of the country of the row.
    pub fn country_key(&self) -> (r: String)
        ensures
            r@ == state_key_text(normalized(self.country@)),
    {
        let country = normalize(self.country.as_str());
        let key = append("ISO-3166-1-", country.as_str());
        proof {
            reveal_strlit("ISO-3166-1-");
            reveal_strlit("ISO-3166-1");
            assert(key@ =~= state_key_text(normalized(self.country@)));
        }
        key
    }

    /// The coordinates that the row writes, if it writes any.
    pub fn parse_coordinates(&self) -> (r: Option<Coordinates>)
        ensures
            match self.coordinates {
                Some(text) => match parsed_coordinates(bytes_of(text@)) {
                    Some(found) => r == Some(found.1),
                    None => r is None,
                },
                None => r is None,
            },
    {
        match &self.coordinates {
            Some(text) => match coordinate_parser(text.as_str()) {
                Some(found) => Some(found.1),
                None => None,
            },
            None => None,
        }
    }
}

/// The first of the names that no field has.
pub open spec fn first_missing(fields: Seq<(Seq<char>, Seq<char>)>, names: Seq<Seq<char>>)
    -> Option<Seq<char>>
    decreases names.len(),
{
    if names.len() == 0 {
        None
    } else if field(fields, names[0]) is None {
        Some(names[0])
    } else {
        first_missing(fields, names.drop_first())
    }
}

} // verus!
