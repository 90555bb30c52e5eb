//! What the proposer reads of a session: its id, the entities it has
//! touched, and the last query object (MQO) of its history.
//!
//! The session shape:
//! ```json
//! {
//!   "session_id": "abc-123",
//!   "mqo_history": [
//!     {
//!       "mqo": {
//!         "model": "sales",
//!         "measures": [{"unique_name": "sales.revenue"}],
//!         "dimensions": [{"hierarchy": "geo.store", "level": "Store Region"}],
//!         "filters": [],
//!         "time_intelligence": []
//!       }
//!     }
//!   ],
//!   "touched_entities": ["sales.revenue", "geo.store.Store Region"]
//! }
//! ```

use vstd::prelude::*;

use crate::json::{str_or, views, Json, JsonV};

verus! {

/// The texts of a sequence of strings.
pub open spec fn string_views(v: Seq<String>) -> Seq<Seq<char>> {
    Seq::new(v.len(), |i: int| v[i]@)
}

/// The texts of member `key` of each item that has a textual one, in order.
pub open spec fn texts_at(items: Seq<JsonV>, key: Seq<char>) -> Seq<Seq<char>>
    decreases items.len(),
{
    if items.len() == 0 {
        Seq::empty()
    } else {
        match items.last().at(key).as_str() {
            Some(t) => texts_at(items.drop_last(), key).push(t),
            None => texts_at(items.drop_last(), key),
        }
    }
}

/// The (hierarchy, level) pairs of the dimension entries that have both.
pub open spec fn dim_pairs(items: Seq<JsonV>) -> Seq<(Seq<char>, Seq<char>)>
    decreases items.len(),
{
    if items.len() == 0 {
        Seq::empty()
    } else {
        let d = items.last();
        match (d.at("hierarchy"@).as_str(), d.at("level"@).as_str()) {
            (Some(h), Some(l)) => dim_pairs(items.drop_last()).push((h, l)),
            _ => dim_pairs(items.drop_last()),
        }
    }
}

/// The texts among `items`, each once, in the order of their first
/// occurrence.
pub open spec fn first_texts(items: Seq<JsonV>) -> Seq<Seq<char>>
    decreases items.len(),
{
    if items.len() == 0 {
        Seq::empty()
    } else {
        let prev = first_texts(items.drop_last());
        match items.last().as_str() {
            Some(t) => if prev.contains(t) {
                prev
            } else {
                prev.push(t)
            },
            None => prev,
        }
    }
}

/// The session id, or `unknown`.
pub open spec fn spec_session_id(session: JsonV) -> Seq<char> {
    str_or(session.at("session_id"@).as_str(), "unknown"@)
}

/// Whether the session lists `entity` among its touched entities.
pub open spec fn is_touched(session: JsonV, entity: Seq<char>) -> bool {
    let items = session.at("touched_entities"@).items();
    exists|i: int| 0 <= i < items.len() && (#[trigger] items[i]).as_str() == Some(entity)
}

/// The set of touched entities.
pub open spec fn spec_touched(session: JsonV) -> Set<Seq<char>> {
    Set::new(|e: Seq<char>| is_touched(session, e))
}

/// The MQO of the last history entry (`null` where that entry has none).
pub open spec fn spec_last_mqo(session: JsonV) -> Option<JsonV> {
    match session.at("mqo_history"@).as_array() {
        Some(history) => if history.len() == 0 {
            None
        } else {
            Some(history.last().at("mqo"@))
        },
        None => None,
    }
}

/// The measures of the last MQO, by unique name.
pub open spec fn spec_last_measures(session: JsonV) -> Seq<Seq<char>> {
    match spec_last_mqo(session) {
        Some(mqo) => texts_at(mqo.at("measures"@).items(), "unique_name"@),
        None => Seq::empty(),
    }
}

/// The dimensions of the last MQO, as (hierarchy, level) pairs.
pub open spec fn spec_last_dimensions(session: JsonV) -> Seq<(Seq<char>, Seq<char>)> {
    match spec_last_mqo(session) {
        Some(mqo) => dim_pairs(mqo.at("dimensions"@).items()),
        None => Seq::empty(),
    }
}

/// Whether a history entry's MQO has a non-empty `time_intelligence` array.
pub open spec fn entry_has_time_intelligence(entry: JsonV) -> bool {
    match entry.at("mqo"@).at("time_intelligence"@).as_array() {
        Some(ops) => ops.len() > 0,
        None => false,
    }
}

/// Whether any MQO of the history uses time intelligence.
pub open spec fn spec_has_time_intelligence(session: JsonV) -> bool {
    match session.at("mqo_history"@).as_array() {
        Some(history) => exists|i: int|
            0 <= i < history.len() && entry_has_time_intelligence(#[trigger] history[i]),
        None => false,
    }
}

/// The model name of the last MQO, or the empty text.
pub open spec fn spec_last_model_name(session: JsonV) -> Seq<char> {
    match spec_last_mqo(session) {
        Some(mqo) => str_or(mqo.at("model"@).as_str(), Seq::empty()),
        None => Seq::empty(),
    }
}

/// The value `null`.
pub const NULL: Json = Json::Null;

/// Whether `v` holds the text `s`.
pub fn contains_text(v: &Vec<String>, s: &String) -> (r: bool)
    ensures
        r == string_views(v@).contains(s@),
{
    let mut i: usize = 0;
    while i < v.len()
        invariant
            i <= v@.len(),
            forall|j: int| 0 <= j < i ==> v@[j]@ != s@,
        decreases v@.len() - i,
    {
        if v[i] == *s {
            assert(string_views(v@)[i as int] == s@);
            return true;
        }
        i = i + 1;
    }
    proof {
        if string_views(v@).contains(s@) {
            let j = choose|j: int| 0 <= j < v@.len() && string_views(v@)[j] == s@;
            assert(v@[j]@ == s@);
        }
    }
    false
}

/// The texts of member `key` of each item that has a textual one.
pub fn collect_texts(items: &Vec<Json>, key: &str) -> (r: Vec<String>)
    ensures
        string_views(r@) == texts_at(views(items@), key@),
{
    let ghost iv = views(items@);
    let mut r: Vec<String> = Vec::new();
    let mut i: usize = 0;
    while i < items.len()
        invariant
            i <= items@.len(),
            iv == views(items@),
            string_views(r@) == texts_at(iv.take(i as int), key@),
        decreases items@.len() - i,
    {
        assert(iv.take(i + 1).drop_last() =~= iv.take(i as int));
        match items[i].str_field(key) {
            Some(t) => {
                r.push(t.clone());
            },
            None => {},
        }
        assert(string_views(r@) =~= texts_at(iv.take(i + 1), key@));
        i = i + 1;
    }
    assert(iv.take(items@.len() as int) =~= iv);
    r
}

/// Extract the session_id string (default `unknown`).
pub fn session_id(session: &Json) -> (r: String)
    ensures
        r@ == spec_session_id(session@),
{
    match session.str_field("session_id") {
        Some(s) => s.clone(),
        None => String::from_str("unknown"),
    }
}

/// Extract the touched entity unique names, each once, in the order of
/// their first occurrence.
pub fn touched_entities(session: &Json) -> (r: Vec<String>)
    ensures
        string_views(r@) == first_texts(session@.at("touched_entities"@).items()),
        string_views(r@).to_set() == spec_touched(session@),
        string_views(r@).no_duplicates(),
{
    let mut r: Vec<String> = Vec::new();
    match session.array_field("touched_entities") {
        Some(items) => {
            let ghost iv = views(items@);
            assert(iv == session@.at("touched_entities"@).items());
            let mut i: usize = 0;
            while i < items.len()
                invariant
                    i <= items@.len(),
                    iv == views(items@),
                    string_views(r@).no_duplicates(),
                    string_views(r@) == first_texts(iv.take(i as int)),
                    forall|e: Seq<char>|
                        string_views(r@).contains(e) <==> exists|j: int|
                            0 <= j < i && (#[trigger] iv[j]).as_str() == Some(e),
                decreases items@.len() - i,
            {
                assert(iv.take(i + 1).drop_last() =~= iv.take(i as int));
                assert(iv.take(i + 1).last() == iv[i as int]);
                let ghost before = string_views(r@);
                match items[i].as_str() {
                    Some(s) => {
                        if !contains_text(&r, s) {
                            r.push(s.clone());
                            assert(string_views(r@) =~= before.push(s@));
                        }
                    },
                    None => {},
                }
                assert forall|e: Seq<char>|
                    string_views(r@).contains(e) <==> exists|j: int|
                        0 <= j < i + 1 && (#[trigger] iv[j]).as_str() == Some(e) by {
                    if iv[i as int].as_str() == Some(e) {
                        assert(string_views(r@).contains(e)) by {
                            if !before.contains(e) {
                                assert(string_views(r@)[string_views(r@).len() - 1] == e);
                            } else {
                                let k = choose|k: int| 0 <= k < before.len() && before[k] == e;
                                assert(string_views(r@)[k] == e);
                            }
                        }
                    } else {
                        if string_views(r@).contains(e) {
                            let k = choose|k: int|
                                0 <= k < string_views(r@).len() && string_views(r@)[k] == e;
                            if k < before.len() {
                                assert(before[k] == e);
                                assert(before.contains(e));
                            }
                        }
                        if exists|j: int| 0 <= j < i + 1 && (#[trigger] iv[j]).as_str() == Some(e) {
                            let j = choose|j: int| 0 <= j < i + 1 && (#[trigger] iv[j]).as_str() == Some(e);
                            assert(j < i);
                            assert(before.contains(e));
                            let k = choose|k: int| 0 <= k < before.len() && before[k] == e;
                            assert(string_views(r@)[k] == e);
                        }
                    }
                }
                assert(string_views(r@) =~= first_texts(iv.take(i + 1)));
                i = i + 1;
            }
            assert(iv.take(items@.len() as int) =~= iv);
            assert(string_views(r@).to_set() =~= spec_touched(session@));
        },
        None => {
            assert(string_views(r@) =~= first_texts(session@.at("touched_entities"@).items()));
            assert(string_views(r@).to_set() =~= spec_touched(session@));
        },
    }
    r
}

/// Return the last MQO value from history, if any.
pub fn last_mqo(session: &Json) -> (r: Option<&Json>)
    ensures
        match r {
            Some(m) => spec_last_mqo(session@) == Some(m@),
            None => spec_last_mqo(session@) is None,
        },
{
    match session.array_field("mqo_history") {
        Some(history) => {
            let n = history.len();
            if n == 0 {
                None
            } else {
                match history[n - 1].field("mqo") {
                    Some(m) => Some(m),
                    None => Some(&NULL),
                }
            }
        },
        None => None,
    }
}

/// Return the measures from the last MQO as unique_name strings.
pub fn last_measures(session: &Json) -> (r: Vec<String>)
    ensures
        string_views(r@) == spec_last_measures(session@),
{
    match last_mqo(session) {
        Some(mqo) => match mqo.array_field("measures") {
            Some(items) => collect_texts(items, "unique_name"),
            None => {
                let r = Vec::new();
                assert(string_views(r@) =~= spec_last_measures(session@));
                r
            },
        },
        None => {
            let r = Vec::new();
            assert(string_views(r@) =~= spec_last_measures(session@));
            r
        },
    }
}

/// The (hierarchy, level) texts of a sequence of pairs of strings.
pub open spec fn pair_views(v: Seq<(String, String)>) -> Seq<(Seq<char>, Seq<char>)> {
    Seq::new(v.len(), |i: int| (v[i].0@, v[i].1@))
}

/// Return the dimension levels from the last MQO as (hierarchy, level) pairs.
pub fn last_dimensions(session: &Json) -> (r: Vec<(String, String)>)
    ensures
        pair_views(r@) == spec_last_dimensions(session@),
{
    let mut r: Vec<(String, String)> = Vec::new();
    match last_mqo(session) {
        Some(mqo) => match mqo.array_field("dimensions") {
            Some(items) => {
                let ghost iv = views(items@);
                let mut i: usize = 0;
                while i < items.len()
                    invariant
                        i <= items@.len(),
                        iv == views(items@),
                        pair_views(r@) == dim_pairs(iv.take(i as int)),
                    decreases items@.len() - i,
                {
                    assert(iv.take(i + 1).drop_last() =~= iv.take(i as int));
                    match (items[i].str_field("hierarchy"), items[i].str_field("level")) {
                        (Some(h), Some(l)) => {
                            r.push((h.clone(), l.clone()));
                        },
                        _ => {},
                    }
                    assert(pair_views(r@) =~= dim_pairs(iv.take(i + 1)));
                    i = i + 1;
                }
                assert(iv.take(items@.len() as int) =~= iv);
            },
            None => {},
        },
        None => {},
    }
    assert(pair_views(r@) =~= spec_last_dimensions(session@));
    r
}

/// Return true if any prior MQO has time_intelligence entries.
pub fn has_time_intelligence(session: &Json) -> (r: bool)
    ensures
        r == spec_has_time_intelligence(session@),
{
    match session.array_field("mqo_history") {
        Some(history) => {
            let ghost hv = views(history@);
            let mut i: usize = 0;
            #[verifier::loop_isolation(false)]
            while i < history.len()
                invariant
                    i <= history@.len(),
                    hv == views(history@),
                    forall|j: int| 0 <= j < i ==> !entry_has_time_intelligence(#[trigger] hv[j]),
                decreases history@.len() - i,
            {
                let found = match history[i].field("mqo") {
                    Some(m) => match m.array_field("time_intelligence") {
                        Some(ops) => ops.len() > 0,
                        None => false,
                    },
                    None => false,
                };
                if found {
                    assert(entry_has_time_intelligence(hv[i as int]));
                    assert(session@.at("mqo_history"@).as_array() == Some(hv));
                    let ghost h2 = session@.at("mqo_history"@).as_array()->0;
                    assert(h2 == hv);
                    assert(entry_has_time_intelligence(h2[i as int]));
                    assert(spec_has_time_intelligence(session@));
                    return true;
                }
                i = i + 1;
            }
            false
        },
        None => false,
    }
}

/// Return the model name from the last MQO (default empty).
pub fn last_model_name(session: &Json) -> (r: String)
    ensures
        r@ == spec_last_model_name(session@),
{
    match last_mqo(session) {
        Some(m) => match m.str_field("model") {
            Some(s) => s.clone(),
            None => String::new(),
        },
        None => String::new(),
    }
}

} // verus!
