//! Parsed TOML and JSON documents, as far as manifests are read from them: the
//! texts, the lists and the tables.

use crate::text;
use vstd::prelude::*;

verus! {

/// A parsed value. Numbers, truth values, dates and nulls are all `Other`.
pub enum DocValue {
    Text(String),
    List(Vec<DocValue>),
    Table(Vec<(String, DocValue)>),
    Other,
}

/// What a parsed value says.
pub enum Doc {
    Text(Seq<char>),
    List(Seq<Doc>),
    Table(Seq<(Seq<char>, Doc)>),
    Other,
}

impl DocValue {
    pub open spec fn view(&self) -> Doc
        decreases self,
    {
        match self {
            DocValue::Text(s) => Doc::Text(s@),
            DocValue::List(v) => Doc::List(
                Seq::new(
                    v@.len(),
                    |i: int|
                        if 0 <= i < v@.len() {
                            v@[i].view()
                        } else {
                            Doc::Other
                        },
                ),
            ),
            DocValue::Table(v) => Doc::Table(
                Seq::new(
                    v@.len(),
                    |i: int|
                        if 0 <= i < v@.len() {
                            (v@[i].0@, v@[i].1.view())
                        } else {
                            (seq![], Doc::Other)
                        },
                ),
            ),
            DocValue::Other => Doc::Other,
        }
    }
}

/// The text of a value, where it is one.
pub open spec fn as_text(d: Doc) -> Option<Seq<char>> {
    match d {
        Doc::Text(s) => Some(s),
        _ => None,
    }
}

/// What the entries have for `key`.
pub open spec fn entry(entries: Seq<(Seq<char>, Doc)>, key: Seq<char>) -> Option<Doc>
    decreases entries.len(),
{
    if entries.len() == 0 {
        None
    } else if entries[0].0 == key {
        Some(entries[0].1)
    } else {
        entry(entries.drop_first(), key)
    }
}

/// What a value has for `key`: nothing where it is no table.
pub open spec fn field(d: Doc, key: Seq<char>) -> Option<Doc> {
    match d {
        Doc::Table(t) => entry(t, key),
        _ => None,
    }
}

/// What stands at the end of a path of keys.
pub open spec fn at(d: Doc, path: Seq<Seq<char>>) -> Option<Doc>
    decreases path.len(),
{
    if path.len() == 0 {
        Some(d)
    } else {
        match field(d, path[0]) {
            Some(v) => at(v, path.drop_first()),
            None => None,
        }
    }
}

impl DocValue {
    pub fn text(&self) -> (r: Option<&String>)
        ensures
            match r {
                Some(s) => as_text(self@) == Some(s@),
                None => as_text(self@) is None,
            },
    {
        match self {
            DocValue::Text(s) => Some(s),
            _ => None,
        }
    }

    pub fn get(&self, key: &str) -> (r: Option<&DocValue>)
        ensures
            match r {
                Some(v) => field(self@, key@) == Some(v@),
                None => field(self@, key@) is None,
            },
    {
        let entries = match self {
            DocValue::Table(v) => v,
            _ => {
                return None;
            },
        };
        let ghost all = self@->Table_0;
        let mut i: usize = 0;
        assert(all.skip(0) =~= all);
        while i < entries.len()
            invariant
                i <= entries@.len(),
                *self == DocValue::Table(*entries),
                all == self@->Table_0,
                all.len() == entries@.len(),
                entry(all, key@) == entry(all.skip(i as int), key@),
            decreases entries@.len() - i,
        {
            assert(all.skip(i as int)[0] == (entries@[i as int].0@, entries@[i as int].1@));
            assert(all.skip(i as int).drop_first() =~= all.skip(i + 1));
            if text::str_eq(entries[i].0.as_str(), key) {
                return Some(&entries[i].1);
            }
            i += 1;
        }
        None
    }

    pub fn walk(&self, path: &Vec<&'static str>) -> (r: Option<&DocValue>)
        ensures
            match r {
                Some(v) => at(self@, lits(path@)) == Some(v@),
                None => at(self@, lits(path@)) is None,
            },
    {
        let ghost all = lits(path@);
        let mut cur: &DocValue = self;
        let mut i: usize = 0;
        assert(all.skip(0) =~= all);
        while i < path.len()
            invariant
                i <= path@.len(),
                all == lits(path@),
                at(self@, all) == at(cur@, all.skip(i as int)),
            decreases path@.len() - i,
        {
            assert(all.skip(i as int)[0] == path@[i as int]@);
            assert(all.skip(i as int).drop_first() =~= all.skip(i + 1));
            match cur.get(path[i]) {
                Some(v) => {
                    cur = v;
                },
                None => {
                    return None;
                },
            }
            i += 1;
        }
        Some(cur)
    }
}

pub open spec fn lits(v: Seq<&'static str>) -> Seq<Seq<char>> {
    v.map_values(|s: &'static str| s@)
}

// ---------------------------------------------------------------------------
// Reading
// ---------------------------------------------------------------------------

/// The error type of `toml`'s parser.
#[verifier::external_type_specification]
#[verifier::external_body]
pub struct ExTomlError(toml::de::Error);

/// A parsed TOML value, as `toml` holds it.
#[verifier::external_type_specification]
#[verifier::external_body]
pub struct ExTomlValue(toml::Value);

/// A parsed JSON value, as `serde_json` holds it.
#[verifier::external_type_specification]
#[verifier::external_body]
pub struct ExJsonValue(serde_json::Value);

/// The document that a TOML text spells, as `toml` reads it; none where the
/// text is malformed.
pub uninterp spec fn toml_document(content: Seq<char>) -> Option<Doc>;

/// The document that a JSON text spells, as `serde_json` reads it; none where
/// the text is malformed.
pub uninterp spec fn json_document(content: Seq<char>) -> Option<Doc>;

/// What a parsed TOML value holds.
pub uninterp spec fn toml_contents(v: toml::Value) -> Doc;

/// What a parsed JSON value holds.
pub uninterp spec fn json_contents(v: serde_json::Value) -> Doc;

/// A parsed TOML value, opened one level deep.
enum TomlNode<'a> {
    Text(&'a String),
    List(&'a Vec<toml::Value>),
    Table(Vec<(&'a String, &'a toml::Value)>),
    Other,
}

/// A parsed JSON value, opened one level deep.
enum JsonNode<'a> {
    Text(&'a String),
    List(&'a Vec<serde_json::Value>),
    Table(Vec<(&'a String, &'a serde_json::Value)>),
    Other,
}

/// Tells the variants of a `toml::Value` apart, and lists a table's entries in
/// the order of `toml::map::Map::iter`. Trusted: the variant and what is in it
/// are what the value holds; a number, a truth value or a date is held as such.
#[verifier::external_body]
fn open_toml(v: &toml::Value) -> (r: TomlNode<'_>)
    ensures
        match r {
            TomlNode::Text(s) => toml_contents(*v) == Doc::Text(s@),
            TomlNode::List(a) => toml_contents(*v) == Doc::List(
                a@.map_values(|x: toml::Value| toml_contents(x)),
            ),
            TomlNode::Table(t) => toml_contents(*v) == Doc::Table(
                t@.map_values(|e: (&String, &toml::Value)| (e.0@, toml_contents(*e.1))),
            ),
            TomlNode::Other => toml_contents(*v) == Doc::Other,
        },
{
    match v {
        toml::Value::String(s) => TomlNode::Text(s),
        toml::Value::Array(a) => TomlNode::List(a),
        toml::Value::Table(t) => TomlNode::Table(t.iter().collect()),
        toml::Value::Integer(_) => TomlNode::Other,
        toml::Value::Float(_) => TomlNode::Other,
        toml::Value::Boolean(_) => TomlNode::Other,
        toml::Value::Datetime(_) => TomlNode::Other,
    }
}

/// Tells the variants of a `serde_json::Value` apart, and lists an object's
/// entries in the order of `serde_json::Map::iter`. Trusted: the variant and
/// what is in it are what the value holds; a number, a truth value or a null is
/// held as such.
#[verifier::external_body]
fn open_json(v: &serde_json::Value) -> (r: JsonNode<'_>)
    ensures
        match r {
            JsonNode::Text(s) => json_contents(*v) == Doc::Text(s@),
            JsonNode::List(a) => json_contents(*v) == Doc::List(
                a@.map_values(|x: serde_json::Value| json_contents(x)),
            ),
            JsonNode::Table(t) => json_contents(*v) == Doc::Table(
                t@.map_values(|e: (&String, &serde_json::Value)| (e.0@, json_contents(*e.1))),
            ),
            JsonNode::Other => json_contents(*v) == Doc::Other,
        },
{
    match v {
        serde_json::Value::String(s) => JsonNode::Text(s),
        serde_json::Value::Array(a) => JsonNode::List(a),
        serde_json::Value::Object(t) => JsonNode::Table(t.iter().collect()),
        serde_json::Value::Null => JsonNode::Other,
        serde_json::Value::Bool(_) => JsonNode::Other,
        serde_json::Value::Number(_) => JsonNode::Other,
    }
}

pub open spec fn docs(v: Seq<DocValue>) -> Seq<Doc> {
    v.map_values(|d: DocValue| d@)
}

pub open spec fn doc_entries(v: Seq<(String, DocValue)>) -> Seq<(Seq<char>, Doc)> {
    v.map_values(|e: (String, DocValue)| (e.0@, e.1@))
}

/// The whole of a parsed TOML value.
fn from_toml(v: &toml::Value) -> (r: DocValue)
    ensures
        r@ == toml_contents(*v),
    decreases toml_contents(*v),
{
    let ghost whole = toml_contents(*v);
    match open_toml(v) {
        TomlNode::Text(s) => DocValue::Text(s.clone()),
        TomlNode::List(a) => {
            let ghost want = whole->List_0;
            let mut out: Vec<DocValue> = Vec::new();
            let mut i: usize = 0;
            while i < a.len()
                invariant
                    i <= a@.len(),
                    whole == toml_contents(*v),
                    whole == Doc::List(want),
                    want == a@.map_values(|x: toml::Value| toml_contents(x)),
                    docs(out@) =~= want.take(i as int),
                decreases a@.len() - i,
            {
                assert(want[i as int] == toml_contents(a@[i as int]));
                assert(decreases_to!(whole => whole->List_0[i as int]));
                let d = from_toml(&a[i]);
                let ghost before = out@;
                out.push(d);
                assert(docs(out@) =~= docs(before).push(d@));
                i += 1;
            }
            let r = DocValue::List(out);
            assert(r@->List_0 =~= docs(out@));
            assert(docs(out@) =~= want);
            r
        },
        TomlNode::Table(t) => {
            let ghost want = whole->Table_0;
            let mut out: Vec<(String, DocValue)> = Vec::new();
            let mut i: usize = 0;
            while i < t.len()
                invariant
                    i <= t@.len(),
                    whole == toml_contents(*v),
                    whole == Doc::Table(want),
                    want == t@.map_values(
                        |e: (&String, &toml::Value)| (e.0@, toml_contents(*e.1)),
                    ),
                    doc_entries(out@) =~= want.take(i as int),
                decreases t@.len() - i,
            {
                let (k, x) = t[i];
                assert(want[i as int] == (k@, toml_contents(*x)));
                assert(decreases_to!(whole => whole->Table_0[i as int].1));
                let d = from_toml(x);
                let ghost before = out@;
                out.push((k.clone(), d));
                assert(doc_entries(out@) =~= doc_entries(before).push((k@, d@)));
                i += 1;
            }
            let r = DocValue::Table(out);
            assert(r@->Table_0 =~= doc_entries(out@));
            assert(doc_entries(out@) =~= want);
            r
        },
        TomlNode::Other => DocValue::Other,
    }
}

/// The whole of a parsed JSON value.
fn from_json(v: &serde_json::Value) -> (r: DocValue)
    ensures
        r@ == json_contents(*v),
    decreases json_contents(*v),
{
    let ghost whole = json_contents(*v);
    match open_json(v) {
        JsonNode::Text(s) => DocValue::Text(s.clone()),
        JsonNode::List(a) => {
            let ghost want = whole->List_0;
            let mut out: Vec<DocValue> = Vec::new();
            let mut i: usize = 0;
            while i < a.len()
                invariant
                    i <= a@.len(),
                    whole == json_contents(*v),
                    whole == Doc::List(want),
                    want == a@.map_values(|x: serde_json::Value| json_contents(x)),
                    docs(out@) =~= want.take(i as int),
                decreases a@.len() - i,
            {
                assert(want[i as int] == json_contents(a@[i as int]));
                assert(decreases_to!(whole => whole->List_0[i as int]));
                let d = from_json(&a[i]);
                let ghost before = out@;
                out.push(d);
                assert(docs(out@) =~= docs(before).push(d@));
                i += 1;
            }
            let r = DocValue::List(out);
            assert(r@->List_0 =~= docs(out@));
            assert(docs(out@) =~= want);
            r
        },
        JsonNode::Table(t) => {
            let ghost want = whole->Table_0;
            let mut out: Vec<(String, DocValue)> = Vec::new();
            let mut i: usize = 0;
            while i < t.len()
                invariant
                    i <= t@.len(),
                    whole == json_contents(*v),
                    whole == Doc::Table(want),
                    want == t@.map_values(
                        |e: (&String, &serde_json::Value)| (e.0@, json_contents(*e.1)),
                    ),
                    doc_entries(out@) =~= want.take(i as int),
                decreases t@.len() - i,
            {
                let (k, x) = t[i];
                assert(want[i as int] == (k@, json_contents(*x)));
                assert(decreases_to!(whole => whole->Table_0[i as int].1));
                let d = from_json(x);
                let ghost before = out@;
                out.push((k.clone(), d));
                assert(doc_entries(out@) =~= doc_entries(before).push((k@, d@)));
                i += 1;
            }
            let r = DocValue::Table(out);
            assert(r@->Table_0 =~= doc_entries(out@));
            assert(doc_entries(out@) =~= want);
            r
        },
        JsonNode::Other => DocValue::Other,
    }
}

/// Calls `toml::from_str`. Trusted: whether the text parses, and to a value
/// with which contents, depends on the text alone.
#[verifier::external_body]
fn parse_toml(content: &str) -> (r: Result<toml::Value, toml::de::Error>)
    ensures
        toml_document(content@) == (match r {
            Ok(v) => Some(toml_contents(v)),
            Err(_) => None,
        }),
{
    toml::from_str::<toml::Value>(content)
}

/// Calls `serde_json::from_str`. Trusted: whether the text parses, and to a
/// value with which contents, depends on the text alone.
#[verifier::external_body]
fn parse_json(content: &str) -> (r: Result<serde_json::Value, serde_json::Error>)
    ensures
        json_document(content@) == (match r {
            Ok(v) => Some(json_contents(v)),
            Err(_) => None,
        }),
{
    serde_json::from_str::<serde_json::Value>(content)
}

/// The document that a TOML text spells.
pub fn read_toml(content: &str) -> (r: Option<DocValue>)
    ensures
        toml_document(content@) == (match r {
            Some(d) => Some(d@),
            None => None,
        }),
{
    match parse_toml(content) {
        Ok(v) => Some(from_toml(&v)),
        Err(_) => None,
    }
}

/// The document that a JSON text spells.
pub fn read_json(content: &str) -> (r: Option<DocValue>)
    ensures
        json_document(content@) == (match r {
            Some(d) => Some(d@),
            None => None,
        }),
{
    match parse_json(content) {
        Ok(v) => Some(from_json(&v)),
        Err(_) => None,
    }
}

} // verus!
