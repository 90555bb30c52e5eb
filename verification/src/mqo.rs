//! The query objects (MQOs) that the proposer builds: their JSON shape,
//! and the fact that such an object passes structural validation exactly
//! when it names a model and at least one measure.
//!
//! A proposed MQO has the shape
//! ```json
//! {
//!   "model": "sales",
//!   "measures": [{"unique_name": "sales.revenue"}],
//!   "dimensions": [{"hierarchy": "geo.store", "level": "Store State"}],
//!   "filters": [],
//!   "time_intelligence": []
//! }
//! ```

use vstd::prelude::*;

use crate::json::{has_key, lemma_array_view, lemma_object_view, views, Json, JsonV};
use crate::seqs::{lemma_first_index_is, lemma_first_index_none};
use crate::session::{pair_views, string_views};
use crate::validate::{lacks_unique_name, spec_validate, ValidationError};

verus! {

/// `{"unique_name": m}`: a reference to a measure.
pub open spec fn measure_ref_v(m: Seq<char>) -> JsonV {
    JsonV::Object(seq![("unique_name"@, JsonV::Str(m))])
}

/// `{"hierarchy": h, "level": l}`: a dimension at one level.
pub open spec fn dim_v(h: Seq<char>, l: Seq<char>) -> JsonV {
    JsonV::Object(seq![("hierarchy"@, JsonV::Str(h)), ("level"@, JsonV::Str(l))])
}

/// `{"op": op}`: a time intelligence operation.
pub open spec fn op_v(op: Seq<char>) -> JsonV {
    JsonV::Object(seq![("op"@, JsonV::Str(op))])
}

pub open spec fn measure_refs_v(ms: Seq<Seq<char>>) -> Seq<JsonV> {
    Seq::new(ms.len(), |i: int| measure_ref_v(ms[i]))
}

pub open spec fn dims_v(ds: Seq<(Seq<char>, Seq<char>)>) -> Seq<JsonV> {
    Seq::new(ds.len(), |i: int| dim_v(ds[i].0, ds[i].1))
}

/// The MQO on model `model` with measures `ms`, dimensions `ds`, no
/// filters, and time intelligence operations `ti`.
pub open spec fn mqo_v(
    model: Seq<char>,
    ms: Seq<Seq<char>>,
    ds: Seq<(Seq<char>, Seq<char>)>,
    ti: Seq<JsonV>,
) -> JsonV {
    JsonV::Object(
        seq![
            ("model"@, JsonV::Str(model)),
            ("measures"@, JsonV::Array(measure_refs_v(ms))),
            ("dimensions"@, JsonV::Array(dims_v(ds))),
            ("filters"@, JsonV::Array(Seq::empty())),
            ("time_intelligence"@, JsonV::Array(ti)),
        ],
    )
}

/// The members of a proposed MQO are the parts it was built from.
pub proof fn lemma_mqo_fields(
    model: Seq<char>,
    ms: Seq<Seq<char>>,
    ds: Seq<(Seq<char>, Seq<char>)>,
    ti: Seq<JsonV>,
)
    ensures
        mqo_v(model, ms, ds, ti).field("model"@) == Some(JsonV::Str(model)),
        mqo_v(model, ms, ds, ti).field("measures"@) == Some(JsonV::Array(measure_refs_v(ms))),
        mqo_v(model, ms, ds, ti).field("dimensions"@) == Some(JsonV::Array(dims_v(ds))),
        mqo_v(model, ms, ds, ti).field("filters"@) == Some(JsonV::Array(Seq::<JsonV>::empty())),
        mqo_v(model, ms, ds, ti).field("time_intelligence"@) == Some(JsonV::Array(ti)),
{
    reveal_strlit("model");
    reveal_strlit("measures");
    reveal_strlit("dimensions");
    reveal_strlit("filters");
    reveal_strlit("time_intelligence");
    let es = match mqo_v(model, ms, ds, ti) {
        JsonV::Object(es) => es,
        _ => Seq::empty(),
    };
    assert(es[0].0 == "model"@);
    assert(es[1].0 == "measures"@);
    assert(es[2].0 == "dimensions"@);
    assert(es[3].0 == "filters"@);
    assert(es[4].0 == "time_intelligence"@);
    assert("measures"@[1] != "model"@[1]);
    assert("dimensions"@[0] != "model"@[0]);
    assert("dimensions"@[0] != "measures"@[0]);
    assert("filters"@[0] != "model"@[0]);
    assert("filters"@[0] != "measures"@[0]);
    assert("filters"@[0] != "dimensions"@[0]);
    assert("time_intelligence"@[0] != "model"@[0]);
    assert("time_intelligence"@[0] != "measures"@[0]);
    assert("time_intelligence"@[0] != "dimensions"@[0]);
    assert("time_intelligence"@[0] != "filters"@[0]);
    lemma_first_index_is(es, has_key("model"@), 0);
    lemma_first_index_is(es, has_key("measures"@), 1);
    lemma_first_index_is(es, has_key("dimensions"@), 2);
    lemma_first_index_is(es, has_key("filters"@), 3);
    lemma_first_index_is(es, has_key("time_intelligence"@), 4);
}

/// A one-member object has that member.
pub proof fn lemma_single_field(k: Seq<char>, v: JsonV)
    ensures
        JsonV::Object(seq![(k, v)]).field(k) == Some(v),
{
    lemma_first_index_is(seq![(k, v)], has_key(k), 0);
}

/// A proposed MQO passes validation exactly when it names a model and
/// at least one measure.
pub proof fn lemma_mqo_validates(
    model: Seq<char>,
    ms: Seq<Seq<char>>,
    ds: Seq<(Seq<char>, Seq<char>)>,
    ti: Seq<JsonV>,
)
    ensures
        spec_validate(mqo_v(model, ms, ds, ti)) == if model.len() == 0 {
            Err::<(), ValidationError>(ValidationError::EmptyModel)
        } else if ms.len() == 0 {
            Err::<(), ValidationError>(ValidationError::EmptyMeasures)
        } else {
            Ok::<(), ValidationError>(())
        },
{
    lemma_mqo_fields(model, ms, ds, ti);
    let refs = measure_refs_v(ms);
    assert forall|j: int| 0 <= j < refs.len() implies !lacks_unique_name()(#[trigger] refs[j]) by {
        lemma_single_field("unique_name"@, JsonV::Str(ms[j]));
    }
    lemma_first_index_none(refs, lacks_unique_name());
}

/// `{"op": op}`.
pub fn op_json(op: &str) -> (r: Json)
    ensures
        r@ == op_v(op@),
{
    let mut es: Vec<(String, Json)> = Vec::new();
    es.push((String::from_str("op"), Json::Str(String::from_str(op))));
    proof {
        lemma_object_view(es);
        assert(crate::json::entry_views(es@) =~= seq![("op"@, JsonV::Str(op@))]);
    }
    Json::Object(es)
}

/// `{"hierarchy": h, "level": l}`.
pub fn dim_json(h: &String, l: &String) -> (r: Json)
    ensures
        r@ == dim_v(h@, l@),
{
    let mut es: Vec<(String, Json)> = Vec::new();
    es.push((String::from_str("hierarchy"), Json::Str(h.clone())));
    es.push((String::from_str("level"), Json::Str(l.clone())));
    proof {
        lemma_object_view(es);
        assert(crate::json::entry_views(es@) =~= seq![
            ("hierarchy"@, JsonV::Str(h@)),
            ("level"@, JsonV::Str(l@)),
        ]);
    }
    Json::Object(es)
}

/// `{"unique_name": m}`.
fn measure_ref_json(m: &String) -> (r: Json)
    ensures
        r@ == measure_ref_v(m@),
{
    let mut es: Vec<(String, Json)> = Vec::new();
    es.push((String::from_str("unique_name"), Json::Str(m.clone())));
    proof {
        lemma_object_view(es);
        assert(crate::json::entry_views(es@) =~= seq![("unique_name"@, JsonV::Str(m@))]);
    }
    Json::Object(es)
}

/// The measure references of `ms`.
pub fn measure_refs_json(ms: &Vec<String>) -> (r: Vec<Json>)
    ensures
        views(r@) == measure_refs_v(string_views(ms@)),
{
    let mut r: Vec<Json> = Vec::new();
    let mut i: usize = 0;
    while i < ms.len()
        invariant
            i <= ms@.len(),
            views(r@) == measure_refs_v(string_views(ms@)).take(i as int),
        decreases ms@.len() - i,
    {
        let ghost prev = views(r@);
        r.push(measure_ref_json(&ms[i]));
        assert(views(r@) =~= prev.push(measure_ref_v(ms@[i as int]@)));
        assert(views(r@) =~= measure_refs_v(string_views(ms@)).take(i + 1));
        i = i + 1;
    }
    assert(views(r@) =~= measure_refs_v(string_views(ms@)));
    r
}

/// The dimension objects of `ds`.
pub fn dims_json(ds: &Vec<(String, String)>) -> (r: Vec<Json>)
    ensures
        views(r@) == dims_v(pair_views(ds@)),
{
    let mut r: Vec<Json> = Vec::new();
    let mut i: usize = 0;
    while i < ds.len()
        invariant
            i <= ds@.len(),
            views(r@) == dims_v(pair_views(ds@)).take(i as int),
        decreases ds@.len() - i,
    {
        let ghost prev = views(r@);
        r.push(dim_json(&ds[i].0, &ds[i].1));
        assert(views(r@) =~= prev.push(dim_v(ds@[i as int].0@, ds@[i as int].1@)));
        assert(views(r@) =~= dims_v(pair_views(ds@)).take(i + 1));
        i = i + 1;
    }
    assert(views(r@) =~= dims_v(pair_views(ds@)));
    r
}

/// The MQO on `model` with measures `ms`, dimensions `ds`, no filters and
/// time intelligence operations `ti`.
pub fn mqo_json(model: &String, ms: &Vec<String>, ds: &Vec<(String, String)>, ti: Vec<Json>) -> (r:
    Json)
    ensures
        r@ == mqo_v(model@, string_views(ms@), pair_views(ds@), views(ti@)),
{
    let measures = measure_refs_json(ms);
    let dims = dims_json(ds);
    let filters: Vec<Json> = Vec::new();
    proof {
        lemma_array_view(measures);
        lemma_array_view(dims);
        lemma_array_view(filters);
        lemma_array_view(ti);
        assert(views(filters@) =~= Seq::<JsonV>::empty());
    }
    let mut es: Vec<(String, Json)> = Vec::new();
    es.push((String::from_str("model"), Json::Str(model.clone())));
    es.push((String::from_str("measures"), Json::Array(measures)));
    es.push((String::from_str("dimensions"), Json::Array(dims)));
    es.push((String::from_str("filters"), Json::Array(filters)));
    es.push((String::from_str("time_intelligence"), Json::Array(ti)));
    proof {
        lemma_object_view(es);
        assert(crate::json::entry_views(es@) =~= seq![
            ("model"@, JsonV::Str(model@)),
            ("measures"@, JsonV::Array(measure_refs_v(string_views(ms@)))),
            ("dimensions"@, JsonV::Array(dims_v(pair_views(ds@)))),
            ("filters"@, JsonV::Array(Seq::empty())),
            ("time_intelligence"@, JsonV::Array(views(ti@))),
        ]);
    }
    Json::Object(es)
}

} // verus!
