//! A JSON document model: the values that sessions, model descriptions,
//! dataset summaries and proposed queries are made of, with the lookups
//! that the proposer reads them by.
//!
//! Lookups follow the usual conventions of JSON value libraries: indexing
//! an object by a key it lacks, or anything that is not an object, yields
//! `null`; the typed readers (`as_str`, `as_u64`, ...) yield nothing for a
//! value of another kind.

use vstd::prelude::*;

use crate::seqs::{first_index, lemma_first_index_is, lemma_first_index_none};

verus! {

/// A JSON number, kept in the form in which it was read.
#[derive(Debug)]
pub enum JsonNumber {
    /// A non-negative integer.
    PosInt(u64),
    /// A negative integer.
    NegInt(i64),
    /// Any other number, by its decimal text.
    Decimal(String),
}

/// A JSON value. The entries of an object keep their order; a key is
/// looked up by its first entry.
#[derive(Debug)]
pub enum Json {
    Null,
    Bool(bool),
    Number(JsonNumber),
    Str(String),
    Array(Vec<Json>),
    Object(Vec<(String, Json)>),
}

/// The mathematical value of a `JsonNumber`.
pub enum NumberV {
    PosInt(u64),
    NegInt(i64),
    Decimal(Seq<char>),
}

/// The mathematical value of a `Json`.
#[verifier::ext_equal]
pub enum JsonV {
    Null,
    Bool(bool),
    Number(NumberV),
    Str(Seq<char>),
    Array(Seq<JsonV>),
    Object(Seq<(Seq<char>, JsonV)>),
}

impl JsonNumber {
    pub open spec fn view(&self) -> NumberV {
        match self {
            JsonNumber::PosInt(n) => NumberV::PosInt(*n),
            JsonNumber::NegInt(n) => NumberV::NegInt(*n),
            JsonNumber::Decimal(s) => NumberV::Decimal(s@),
        }
    }
}

impl Json {
    pub open spec fn view(&self) -> JsonV
        decreases self,
    {
        match self {
            Json::Null => JsonV::Null,
            Json::Bool(b) => JsonV::Bool(*b),
            Json::Number(n) => JsonV::Number(n.view()),
            Json::Str(s) => JsonV::Str(s@),
            Json::Array(items) => JsonV::Array(
                Seq::new(
                    items@.len(),
                    |i: int|
                        if 0 <= i < items@.len() {
                            items@[i].view()
                        } else {
                            JsonV::Null
                        },
                ),
            ),
            Json::Object(entries) => JsonV::Object(
                Seq::new(
                    entries@.len(),
                    |i: int|
                        if 0 <= i < entries@.len() {
                            (entries@[i].0@, entries@[i].1.view())
                        } else {
                            (Seq::empty(), JsonV::Null)
                        },
                ),
            ),
        }
    }
}

/// The values of a sequence of JSON values.
pub open spec fn views(items: Seq<Json>) -> Seq<JsonV> {
    Seq::new(items.len(), |i: int| items[i]@)
}

/// The values of a sequence of object entries.
pub open spec fn entry_views(entries: Seq<(String, Json)>) -> Seq<(Seq<char>, JsonV)> {
    Seq::new(entries.len(), |i: int| (entries[i].0@, entries[i].1@))
}

/// The value of an array is the sequence of the values of its items.
pub proof fn lemma_array_view(items: Vec<Json>)
    ensures
        Json::Array(items)@ == JsonV::Array(views(items@)),
{
    assert(views(items@) =~= match Json::Array(items)@ {
        JsonV::Array(s) => s,
        _ => Seq::empty(),
    });
}

/// The value of an object is the sequence of the values of its entries.
pub proof fn lemma_object_view(entries: Vec<(String, Json)>)
    ensures
        Json::Object(entries)@ == JsonV::Object(entry_views(entries@)),
{
    assert(entry_views(entries@) =~= match Json::Object(entries)@ {
        JsonV::Object(s) => s,
        _ => Seq::empty(),
    });
}

/// The predicate of an entry whose key is `key`.
pub open spec fn has_key(key: Seq<char>) -> spec_fn((Seq<char>, JsonV)) -> bool {
    |e: (Seq<char>, JsonV)| e.0 == key
}

/// The value of the first entry whose key is `key`.
pub open spec fn lookup(entries: Seq<(Seq<char>, JsonV)>, key: Seq<char>) -> Option<JsonV> {
    match first_index(entries, has_key(key)) {
        Some(i) => Some(entries[i].1),
        None => None,
    }
}

impl JsonV {
    /// The member `key` of an object; nothing for a missing key or a
    /// value that is not an object.
    pub open spec fn field(self, key: Seq<char>) -> Option<JsonV> {
        match self {
            JsonV::Object(entries) => lookup(entries, key),
            _ => None,
        }
    }

    /// The member `key`, or `null` where `field` gives nothing.
    pub open spec fn at(self, key: Seq<char>) -> JsonV {
        match self.field(key) {
            Some(v) => v,
            None => JsonV::Null,
        }
    }

    pub open spec fn as_str(self) -> Option<Seq<char>> {
        match self {
            JsonV::Str(s) => Some(s),
            _ => None,
        }
    }

    pub open spec fn as_array(self) -> Option<Seq<JsonV>> {
        match self {
            JsonV::Array(items) => Some(items),
            _ => None,
        }
    }

    pub open spec fn as_object(self) -> Option<Seq<(Seq<char>, JsonV)>> {
        match self {
            JsonV::Object(entries) => Some(entries),
            _ => None,
        }
    }

    pub open spec fn as_bool(self) -> Option<bool> {
        match self {
            JsonV::Bool(b) => Some(b),
            _ => None,
        }
    }

    /// A non-negative integer that fits in `u64`.
    pub open spec fn as_u64(self) -> Option<u64> {
        match self {
            JsonV::Number(NumberV::PosInt(n)) => Some(n),
            _ => None,
        }
    }

    /// The items of an array, or no items for anything else.
    pub open spec fn items(self) -> Seq<JsonV> {
        match self {
            JsonV::Array(items) => items,
            _ => Seq::empty(),
        }
    }
}

/// The text, or `default` where there is none.
pub open spec fn str_or(s: Option<Seq<char>>, default: Seq<char>) -> Seq<char> {
    match s {
        Some(t) => t,
        None => default,
    }
}

/// The text of member `key`, or the empty text.
pub open spec fn str_at(v: JsonV, key: Seq<char>) -> Seq<char> {
    str_or(v.at(key).as_str(), Seq::empty())
}

/// Whether a `String` holds the same text as a `str`.
pub fn text_eq(a: &String, b: &str) -> (r: bool)
    ensures
        r == (a@ == b@),
{
    let b_owned = String::from_str(b);
    *a == b_owned
}

impl Json {
    /// The member `key` of an object.
    pub fn field(&self, key: &str) -> (r: Option<&Json>)
        ensures
            match r {
                Some(v) => self@.field(key@) == Some(v@),
                None => self@.field(key@) is None,
            },
    {
        match self {
            Json::Object(entries) => {
                proof {
                    lemma_object_view(*entries);
                }
                let ghost ev = entry_views(entries@);
                assert(self@ == JsonV::Object(ev));
                let mut i: usize = 0;
                while i < entries.len()
                    invariant
                        i <= entries@.len(),
                        ev == entry_views(entries@),
                        self@ == JsonV::Object(ev),
                        forall|j: int| 0 <= j < i ==> !has_key(key@)(#[trigger] ev[j]),
                    decreases entries@.len() - i,
                {
                    if text_eq(&entries[i].0, key) {
                        proof {
                            lemma_first_index_is(ev, has_key(key@), i as int);
                            assert(ev[i as int].1 == entries@[i as int].1@);
                            assert(self@ == JsonV::Object(ev));
                        }
                        return Some(&entries[i].1);
                    }
                    i = i + 1;
                }
                proof {
                    lemma_first_index_none(ev, has_key(key@));
                }
                None
            },
            _ => None,
        }
    }

    pub fn as_str(&self) -> (r: Option<&String>)
        ensures
            match r {
                Some(s) => self@.as_str() == Some(s@),
                None => self@.as_str() is None,
            },
    {
        match self {
            Json::Str(s) => Some(s),
            _ => None,
        }
    }

    pub fn as_array(&self) -> (r: Option<&Vec<Json>>)
        ensures
            match r {
                Some(items) => self@.as_array() == Some(views(items@)),
                None => self@.as_array() is None,
            },
    {
        match self {
            Json::Array(items) => {
                proof {
                    lemma_array_view(*items);
                }
                Some(items)
            },
            _ => None,
        }
    }

    pub fn as_object(&self) -> (r: Option<&Vec<(String, Json)>>)
        ensures
            match r {
                Some(entries) => self@.as_object() == Some(entry_views(entries@)),
                None => self@.as_object() is None,
            },
    {
        match self {
            Json::Object(entries) => {
                proof {
                    lemma_object_view(*entries);
                }
                Some(entries)
            },
            _ => None,
        }
    }

    pub fn as_bool(&self) -> (r: Option<bool>)
        ensures
            r == self@.as_bool(),
    {
        match self {
            Json::Bool(b) => Some(*b),
            _ => None,
        }
    }

    pub fn as_u64(&self) -> (r: Option<u64>)
        ensures
            r == self@.as_u64(),
    {
        match self {
            Json::Number(JsonNumber::PosInt(n)) => Some(*n),
            _ => None,
        }
    }

    /// The text of member `key`, where it is text.
    pub fn str_field(&self, key: &str) -> (r: Option<&String>)
        ensures
            match r {
                Some(s) => self@.at(key@).as_str() == Some(s@),
                None => self@.at(key@).as_str() is None,
            },
    {
        match self.field(key) {
            Some(v) => v.as_str(),
            None => None,
        }
    }

    /// The items of member `key`, where it is an array.
    pub fn array_field(&self, key: &str) -> (r: Option<&Vec<Json>>)
        ensures
            match r {
                Some(items) => self@.at(key@).as_array() == Some(views(items@)),
                None => self@.at(key@).as_array() is None,
            },
    {
        match self.field(key) {
            Some(v) => v.as_array(),
            None => None,
        }
    }

    /// Member `key` as a non-negative integer.
    pub fn u64_field(&self, key: &str) -> (r: Option<u64>)
        ensures
            r == self@.at(key@).as_u64(),
    {
        match self.field(key) {
            Some(v) => v.as_u64(),
            None => None,
        }
    }

    /// Member `key` as a boolean.
    pub fn bool_field(&self, key: &str) -> (r: Option<bool>)
        ensures
            r == self@.at(key@).as_bool(),
    {
        match self.field(key) {
            Some(v) => v.as_bool(),
            None => None,
        }
    }

    /// The text of member `key`, or the empty text.
    pub fn text_field(&self, key: &str) -> (r: String)
        ensures
            r@ == str_at(self@, key@),
    {
        match self.str_field(key) {
            Some(s) => s.clone(),
            None => String::new(),
        }
    }
}

} // verus!
