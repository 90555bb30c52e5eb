//! What the proposer promises, stated directly on its JSON inputs: the
//! session, the model description and the dataset summary, read member by
//! member, and the proposals that come out.

use vstd::prelude::*;

use crate::json::{str_at, JsonV};
use crate::model::{
    depth_is, find_hierarchy, level_named, spec_child_level, text_is,
    hier_is_time, hierarchies, hierarchy_levels, level_entries, level_entry, levels_of, levels_upto,
    spec_all_levels, spec_first_time_hierarchy, spec_unvisited, time_hierarchy, unvisited_of,
    LevelV,
};
use crate::mqo::{dim_v, dims_v, lemma_mqo_fields};
use crate::proposer::{
    distinct_count, drill_dims, drill_draft, drill_options, drill_target, spec_high_cardinality,
    spec_select_auto, non_time, pivot_candidates, ranked, spec_compare, spec_drafts, spec_drill, spec_pivot,
    spec_propose, unvisited_drafts,
};
use crate::seqs::{
    lemma_first_index, lemma_first_index_is, lemma_somes_len, lemma_somes_prefix, lemma_somes_step,
    somes, trunc,
};
use crate::session::{
    dim_pairs, spec_last_dimensions,
    spec_last_measures, spec_last_model_name, spec_last_mqo, spec_touched, texts_at,
};
use crate::types::{ProposalV, Strategy};

verus! {

// ── Reading the inputs ────────────────────────────────────────────────────

/// The query of the last entry of the session's history.
pub open spec fn last_query(session: JsonV) -> JsonV {
    session.at("mqo_history"@).items().last().at("mqo"@)
}

/// Whether query `q` names a model by a non-empty text and has a measure
/// entry with a textual `unique_name`.
pub open spec fn names_model_and_measure(q: JsonV) -> bool {
    &&& q.at("model"@).as_str() matches Some(name) && name.len() > 0
    &&& exists|k: int|
        0 <= k < q.at("measures"@).items().len()
            && (#[trigger] q.at("measures"@).items()[k]).at("unique_name"@).as_str() is Some
}

/// Whether the session does not list `u` among its touched entities.
pub open spec fn untouched(session: JsonV, u: Seq<char>) -> bool {
    forall|i: int|
        0 <= i < session.at("touched_entities"@).items().len() ==> (
        #[trigger] session.at("touched_entities"@).items()[i]).as_str() != Some(u)
}

/// Whether level entry `b` of hierarchy `a` of the model has a non-empty
/// textual unique name that the session has not touched.
pub open spec fn open_level(session: JsonV, model: JsonV, a: int, b: int) -> bool {
    let hs = model.at("hierarchies"@).items();
    &&& 0 <= a < hs.len()
    &&& 0 <= b < hs[a].at("levels"@).items().len()
    &&& hs[a].at("levels"@).items()[b].at("unique_name"@).as_str() matches Some(u) && u.len() > 0
        && untouched(session, u)
}

/// Whether the model has a hierarchy marked as time, and each hierarchy so
/// marked has a textual unique name.
pub open spec fn has_named_time_hierarchy(model: JsonV) -> bool {
    let hs = model.at("hierarchies"@).items();
    &&& exists|a: int| 0 <= a < hs.len() && (#[trigger] hs[a]).at("is_time"@).as_bool() == Some(true)
    &&& forall|a: int|
        0 <= a < hs.len() && (#[trigger] hs[a]).at("is_time"@).as_bool() == Some(true)
            ==> hs[a].at("unique_name"@).as_str() is Some
}

/// The number of entries of `items` before index `p` whose member `key`
/// is text.
pub open spec fn texts_before(items: Seq<JsonV>, key: Seq<char>, p: int) -> nat
    decreases p,
{
    if p <= 0 {
        0
    } else {
        texts_before(items, key, p - 1) + if items[p - 1].at(key).as_str() is Some {
            1nat
        } else {
            0nat
        }
    }
}

/// Whether `refs` holds, in order, one reference `{"unique_name": t}` for
/// each entry of `given` whose `unique_name` is a text `t`, and nothing else.
pub open spec fn refs_each_named(refs: Seq<JsonV>, given: Seq<JsonV>) -> bool {
    &&& refs.len() == texts_before(given, "unique_name"@, given.len() as int)
    &&& forall|p: int|
        0 <= p < given.len() && (#[trigger] given[p]).at("unique_name"@).as_str() is Some
            ==> refs[texts_before(given, "unique_name"@, p) as int] == JsonV::Object(
            seq![("unique_name"@, given[p].at("unique_name"@))],
        )
}

// ── Lemmas on the readers ─────────────────────────────────────────────────

/// `texts_at` keeps the texts in order: the text of the entry at `j` stands
/// at the number of textual entries before `j`.
#[verifier::spinoff_prover]
proof fn lemma_texts_at_positions(items: Seq<JsonV>, key: Seq<char>, p: int)
    requires
        0 <= p <= items.len(),
    ensures
        texts_at(items.take(p), key).len() == texts_before(items, key, p),
        forall|j: int|
            0 <= j < p && (#[trigger] items[j]).at(key).as_str() is Some ==> texts_before(items, key, j)
                < texts_before(items, key, p) && texts_at(items.take(p), key)[texts_before(
                items,
                key,
                j,
            ) as int] == items[j].at(key).as_str()->0,
    decreases p,
{
    if p > 0 {
        lemma_texts_at_positions(items, key, p - 1);
        let before = texts_at(items.take(p - 1), key);
        assert(items.take(p).drop_last() =~= items.take(p - 1));
        assert(items.take(p).last() == items[p - 1]);
        assert forall|j: int|
            0 <= j < p && (#[trigger] items[j]).at(key).as_str() is Some implies texts_before(
                items,
                key,
                j,
            ) < texts_before(items, key, p) && texts_at(items.take(p), key)[texts_before(
                items,
                key,
                j,
            ) as int] == items[j].at(key).as_str()->0 by {
            if j < p - 1 {
                assert(before[texts_before(items, key, j) as int] == items[j].at(key).as_str()->0);
            }
        }
    } else {
        assert(items.take(p) =~= Seq::<JsonV>::empty());
    }
}

/// The texts of member `key`, one for each entry where it is text.
proof fn lemma_texts_at_all(items: Seq<JsonV>, key: Seq<char>)
    ensures
        texts_at(items, key).len() == texts_before(items, key, items.len() as int),
        forall|j: int|
            0 <= j < items.len() && (#[trigger] items[j]).at(key).as_str() is Some ==> texts_before(
                items,
                key,
                j,
            ) < texts_at(items, key).len() && texts_at(items, key)[texts_before(items, key, j) as int]
                == items[j].at(key).as_str()->0,
{
    lemma_texts_at_positions(items, key, items.len() as int);
    assert(items.take(items.len() as int) =~= items);
}

/// Where the history is not empty, the last MQO is the query of its last
/// entry.
proof fn lemma_last_query(session: JsonV)
    requires
        session.at("mqo_history"@).items().len() > 0,
    ensures
        spec_last_mqo(session) == Some(last_query(session)),
{
    assert(session.at("mqo_history"@).as_array() == Some(session.at("mqo_history"@).items()));
}

/// Where the last query names a model and a measure, the proposer reads
/// both.
proof fn lemma_named_query(session: JsonV)
    requires
        session.at("mqo_history"@).items().len() > 0,
        names_model_and_measure(last_query(session)),
    ensures
        spec_last_measures(session).len() > 0,
        spec_last_model_name(session).len() > 0,
        spec_last_model_name(session) == last_query(session).at("model"@).as_str()->0,
{
    lemma_last_query(session);
    let q = last_query(session);
    let items = q.at("measures"@).items();
    lemma_texts_at_all(items, "unique_name"@);
    let k = choose|k: int| 0 <= k < items.len() && (#[trigger] items[k]).at("unique_name"@).as_str() is Some;
    assert(items[k].at("unique_name"@).as_str() is Some);
}

/// A level entry with a non-empty unique name gives one of the levels.
proof fn lemma_levels_of_has(hier: Seq<char>, is_time: bool, ls: Seq<JsonV>, b: int)
    requires
        0 <= b < ls.len(),
        str_at(ls[b], "unique_name"@).len() > 0,
    ensures
        levels_of(hier, is_time, ls).contains(level_entry(hier, is_time, ls[b])),
    decreases ls.len(),
{
    let init = ls.drop_last();
    let r = levels_of(hier, is_time, ls);
    if b < ls.len() - 1 {
        lemma_levels_of_has(hier, is_time, init, b);
        assert(init[b] == ls[b]);
        let r0 = levels_of(hier, is_time, init);
        let k = choose|k: int| 0 <= k < r0.len() && r0[k] == level_entry(hier, is_time, ls[b]);
        assert(r[k] == r0[k]);
    } else {
        assert(r[r.len() - 1] == level_entry(hier, is_time, ls[b]));
    }
}

/// A level entry of a hierarchy with a non-empty unique name gives one of
/// the levels of the hierarchies.
proof fn lemma_levels_upto_has(hs: Seq<JsonV>, a: int, b: int)
    requires
        0 <= a < hs.len(),
        0 <= b < level_entries(hs[a]).len(),
        str_at(level_entries(hs[a])[b], "unique_name"@).len() > 0,
    ensures
        levels_upto(hs).contains(
            level_entry(str_at(hs[a], "unique_name"@), hier_is_time(hs[a]), level_entries(hs[a])[b]),
        ),
    decreases hs.len(),
{
    let init = hs.drop_last();
    let x = level_entry(str_at(hs[a], "unique_name"@), hier_is_time(hs[a]), level_entries(hs[a])[b]);
    let r = levels_upto(hs);
    if a < hs.len() - 1 {
        lemma_levels_upto_has(init, a, b);
        assert(init[a] == hs[a]);
        let r0 = levels_upto(init);
        let k = choose|k: int| 0 <= k < r0.len() && r0[k] == x;
        assert(r[k] == r0[k]);
    } else {
        lemma_levels_of_has(
            str_at(hs[a], "unique_name"@),
            hier_is_time(hs[a]),
            level_entries(hs[a]),
            b,
        );
        let r1 = hierarchy_levels(hs[a]);
        let k = choose|k: int| 0 <= k < r1.len() && r1[k] == x;
        assert(r[levels_upto(init).len() + k] == r1[k]);
    }
}

/// A level that is not touched stays among the unvisited ones.
proof fn lemma_unvisited_has(levels: Seq<LevelV>, touched: Set<Seq<char>>, l: LevelV)
    requires
        levels.contains(l),
        !touched.contains(l.unique_name),
    ensures
        unvisited_of(levels, touched).contains(l),
    decreases levels.len(),
{
    let init = levels.drop_last();
    let r = unvisited_of(levels, touched);
    if levels.last() == l {
        assert(r[r.len() - 1] == l);
    } else {
        let k = choose|k: int| 0 <= k < levels.len() && levels[k] == l;
        assert(init[k] == l);
        lemma_unvisited_has(init, touched, l);
        let r0 = unvisited_of(init, touched);
        let j = choose|j: int| 0 <= j < r0.len() && r0[j] == l;
        assert(r[j] == r0[j]);
    }
}

/// A level that is not of a time hierarchy stays among the non-time ones.
proof fn lemma_non_time_has(levels: Seq<LevelV>, l: LevelV)
    requires
        levels.contains(l),
        !l.is_time,
    ensures
        non_time(levels).contains(l),
    decreases levels.len(),
{
    let init = levels.drop_last();
    let r = non_time(levels);
    if levels.last() == l {
        assert(r[r.len() - 1] == l);
    } else {
        let k = choose|k: int| 0 <= k < levels.len() && levels[k] == l;
        assert(init[k] == l);
        lemma_non_time_has(init, l);
        let r0 = non_time(init);
        let j = choose|j: int| 0 <= j < r0.len() && r0[j] == l;
        assert(r[j] == r0[j]);
    }
}

/// An open level entry is an unvisited level, and a pivot candidate where
/// its hierarchy is not marked as time.
proof fn lemma_open_level_unvisited(session: JsonV, model: JsonV, a: int, b: int)
    requires
        open_level(session, model, a, b),
    ensures
        spec_unvisited(model, spec_touched(session)).len() > 0,
        model.at("hierarchies"@).items()[a].at("is_time"@).as_bool() != Some(true)
            ==> pivot_candidates(session, model).len() > 0,
{
    let hs = hierarchies(model);
    let t = spec_touched(session);
    let e = level_entries(hs[a])[b];
    let u = e.at("unique_name"@).as_str()->0;
    let l = level_entry(str_at(hs[a], "unique_name"@), hier_is_time(hs[a]), e);
    lemma_levels_upto_has(hs, a, b);
    assert(!t.contains(u)) by {
        if t.contains(u) {
            let items = session.at("touched_entities"@).items();
            let i = choose|i: int| 0 <= i < items.len() && (#[trigger] items[i]).as_str() == Some(u);
            assert(items[i].as_str() != Some(u));
        }
    }
    assert(l.unique_name == u);
    lemma_unvisited_has(spec_all_levels(model), t, l);
    if hs[a].at("is_time"@).as_bool() != Some(true) {
        assert(!l.is_time);
        lemma_non_time_has(spec_unvisited(model, t), l);
    }
}

// ── Laws ──────────────────────────────────────────────────────────────────

/// A session that has not touched every level gets proposals. Where some
/// level entry of the model has a non-empty unique name that the session
/// has not touched, the last query names a model and a measure, and `count`
/// is at least 1: drill proposes something; compare does wherever the model
/// has a time hierarchy (each one named); pivot does wherever that level
/// entry is not of a time hierarchy.
pub proof fn law_open_session_gets_proposals(
    session: JsonV,
    model: JsonV,
    summary: JsonV,
    count: nat,
    strategy: Strategy,
    a: int,
    b: int,
)
    requires
        open_level(session, model, a, b),
        session.at("mqo_history"@).items().len() > 0,
        names_model_and_measure(last_query(session)),
        count >= 1,
        strategy == Strategy::Drill || (strategy == Strategy::Compare && has_named_time_hierarchy(model))
            || (strategy == Strategy::Pivot && model.at("hierarchies"@).items()[a].at(
            "is_time"@,
        ).as_bool() != Some(true)),
    ensures
        spec_propose(session, model, summary, count, strategy).proposals.len() >= 1,
{
    let t = spec_touched(session);
    lemma_open_level_unvisited(session, model, a, b);
    lemma_named_query(session);
    let hs = hierarchies(model);
    match strategy {
        Strategy::Drill => {
            let u = trunc(spec_unvisited(model, t), count);
            assert(u.len() >= 1);
            assert(unvisited_drafts(session, model, count).len() >= 1);
            assert(spec_drill(session, model, count).len() >= 1);
        },
        Strategy::Compare => {
            lemma_first_index(hs, time_hierarchy());
            let a0 = choose|a0: int| 0 <= a0 < hs.len() && (#[trigger] hs[a0]).at("is_time"@).as_bool() == Some(true);
            assert(time_hierarchy()(hs[a0]));
            let i = crate::seqs::first_index(hs, time_hierarchy())->0;
            assert(hier_is_time(hs[i]));
            assert(hs[i].at("is_time"@).as_bool() == Some(true));
            assert(spec_first_time_hierarchy(model) is Some);
            assert(spec_compare(session, model, count).len() >= 1);
        },
        _ => {
            assert(spec_pivot(session, model, count).len() >= 1);
        },
    }
    let drafts = spec_drafts(session, model, summary, count, strategy);
    assert(drafts.len() >= 1);
    assert(ranked(trunc(drafts, count)).len() >= 1);
}

/// Every proposal queries the model of the last query of the history and
/// carries over all its measures: its `measures` array holds, in order, a
/// reference `{"unique_name": m}` for each measure entry of the last query
/// whose `unique_name` is a text `m`, and nothing else.
pub proof fn law_measures_carried_over(
    session: JsonV,
    model: JsonV,
    summary: JsonV,
    count: nat,
    strategy: Strategy,
)
    ensures
        forall|i: int|
            0 <= i < spec_propose(session, model, summary, count, strategy).proposals.len() ==> {
                let q = (#[trigger] spec_propose(session, model, summary, count, strategy).proposals[i]).mqo;
                &&& q.at("model"@) == last_query(session).at("model"@)
                &&& q.at("measures"@).as_array() is Some
                &&& refs_each_named(
                    q.at("measures"@).items(),
                    last_query(session).at("measures"@).items(),
                )
            },
{
    let ps = spec_propose(session, model, summary, count, strategy).proposals;
    let drafts = spec_drafts(session, model, summary, count, strategy);
    crate::laws::law_model_and_measures_kept(session, model, summary, count, strategy);
    crate::laws::law_proposals_validate(session, model, summary, count, strategy);
    crate::laws::lemma_ranked_trunc(drafts, count);
    if ps.len() > 0 {
        crate::laws::lemma_drafts_shape(session, model, summary, count, strategy);
        assert(drafts.len() > 0);
        let ms = spec_last_measures(session);
        let mn = spec_last_model_name(session);
        assert(ms.len() > 0 && mn.len() > 0);
        assert(spec_last_mqo(session) is Some);
        assert(session.at("mqo_history"@).items().len() > 0);
        lemma_last_query(session);
        let m = last_query(session);
        let given = m.at("measures"@).items();
        assert(ms == texts_at(given, "unique_name"@));
        lemma_texts_at_all(given, "unique_name"@);
        assert(m.at("model"@) == JsonV::Str(mn));
        let refs = crate::mqo::measure_refs_v(ms);
        assert forall|p: int|
            0 <= p < given.len() && (#[trigger] given[p]).at("unique_name"@).as_str() is Some implies refs[texts_before(
                given,
                "unique_name"@,
                p,
            ) as int] == JsonV::Object(seq![("unique_name"@, given[p].at("unique_name"@))]) by {
            let k = texts_before(given, "unique_name"@, p) as int;
            assert(ms[k] == given[p].at("unique_name"@).as_str()->0);
            assert(given[p].at("unique_name"@) == JsonV::Str(ms[k]));
        }
        assert(refs_each_named(refs, given));
    }
}


// ── Drill ─────────────────────────────────────────────────────────────────

/// Whether hierarchy `a` is the first of the model whose unique name is
/// `h`, its level entry `ci` is the first named `l` (by name or unique
/// name) and has a depth `d` below the largest, and its level entry `c` is
/// the first at depth `d + 1`.
pub open spec fn deeper_level(model: JsonV, h: Seq<char>, l: Seq<char>, a: int, ci: int, c: int) -> bool {
    let hs = model.at("hierarchies"@).items();
    let ls = hs[a].at("levels"@).items();
    &&& 0 <= a < hs.len()
    &&& hs[a].at("unique_name"@).as_str() == Some(h)
    &&& forall|a2: int| 0 <= a2 < a ==> (#[trigger] hs[a2]).at("unique_name"@).as_str() != Some(h)
    &&& 0 <= ci < ls.len()
    &&& 0 <= c < ls.len()
    &&& ls[ci].at("name"@).as_str() == Some(l) || ls[ci].at("unique_name"@).as_str() == Some(l)
    &&& forall|j: int|
        0 <= j < ci ==> (#[trigger] ls[j]).at("name"@).as_str() != Some(l) && ls[j].at(
            "unique_name"@,
        ).as_str() != Some(l)
    &&& ls[ci].at("depth"@).as_u64() matches Some(d) && d < u64::MAX && ls[c].at("depth"@).as_u64()
        == Some((d + 1) as u64) && forall|j: int|
        0 <= j < c ==> (#[trigger] ls[j]).at("depth"@).as_u64() != Some((d + 1) as u64)
}

/// Whether proposal `p` is the drill from level `l` of hierarchy `h` to
/// level `c`: it says so, and one of its dimensions is `c` of `h`.
pub open spec fn moves_to(p: ProposalV, h: Seq<char>, l: Seq<char>, c: Seq<char>) -> bool {
    &&& p.strategy == "drill"@
    &&& p.rationale == "High cardinality on '"@ + l + "'; drill to '"@ + c + "'"@
    &&& exists|j: int|
        0 <= j < p.mqo.at("dimensions"@).items().len() && (#[trigger] p.mqo.at(
            "dimensions"@,
        ).items()[j]).at("hierarchy"@).as_str() == Some(h) && p.mqo.at("dimensions"@).items()[j].at(
            "level"@,
        ).as_str() == Some(c)
}

/// Whether the dimension entries `dims` hold each dimension of `given`
/// that has a textual hierarchy and level and is not level `l` of
/// hierarchy `h`.
pub open spec fn keeps_other_dims(dims: Seq<JsonV>, given: Seq<JsonV>, h: Seq<char>, l: Seq<char>) -> bool {
    forall|j: int|
        0 <= j < given.len() && (#[trigger] given[j]).at("hierarchy"@).as_str() is Some && given[j].at(
            "level"@,
        ).as_str() is Some && (given[j].at("hierarchy"@).as_str() != Some(h) || given[j].at(
            "level"@,
        ).as_str() != Some(l)) ==> exists|j2: int|
            0 <= j2 < dims.len() && (#[trigger] dims[j2]).at("hierarchy"@) == given[j].at("hierarchy"@)
                && dims[j2].at("level"@) == given[j].at("level"@)
}

/// The pairs of the dimension entries number no more than the entries.
proof fn lemma_dim_pairs_len(items: Seq<JsonV>)
    ensures
        dim_pairs(items).len() <= items.len(),
    decreases items.len(),
{
    if items.len() > 0 {
        lemma_dim_pairs_len(items.drop_last());
    }
}

/// A dimension entry with both texts gives a pair, at no later index.
proof fn lemma_dim_pairs_has(items: Seq<JsonV>, k: int, h: Seq<char>, l: Seq<char>)
    requires
        0 <= k < items.len(),
        items[k].at("hierarchy"@).as_str() == Some(h),
        items[k].at("level"@).as_str() == Some(l),
    ensures
        exists|k2: int| 0 <= k2 <= k && k2 < dim_pairs(items).len() && #[trigger] dim_pairs(items)[k2] == (h, l),
    decreases items.len(),
{
    let init = items.drop_last();
    let r = dim_pairs(items);
    if k < items.len() - 1 {
        lemma_dim_pairs_has(init, k, h, l);
        assert(init[k] == items[k]);
        let k2 = choose|k2: int| 0 <= k2 <= k && k2 < dim_pairs(init).len() && #[trigger] dim_pairs(init)[k2] == (h, l);
        assert(r[k2] == dim_pairs(init)[k2]);
    } else {
        lemma_dim_pairs_len(init);
        assert(r[dim_pairs(init).len() as int] == (h, l));
    }
}

/// A present value of `s` at `j` stands among its values, at no later index.
proof fn lemma_somes_has<A>(s: Seq<Option<A>>, j: int, x: A)
    requires
        0 <= j < s.len(),
        s[j] == Some(x),
    ensures
        exists|p: int| 0 <= p <= j && p < somes(s).len() && #[trigger] somes(s)[p] == x,
{
    lemma_somes_step(s, j);
    lemma_somes_prefix(s, j + 1);
    lemma_somes_len(s.take(j));
    let p = somes(s.take(j)).len() as int;
    assert(somes(s.take(j + 1))[p] == x);
    assert(somes(s).take(p + 1)[p] == x);
}

/// Drill deepens the dimensions of the last query. Where the last query
/// names a model and a measure, its dimension entry `k` is level `l` of
/// hierarchy `h`, the model's first hierarchy named `h` has a first level
/// entry named `l` at some depth `d`, and its first level entry at depth
/// `d + 1` has a non-empty name `c` and a non-empty unique name `cu` that
/// the session has not touched, then with `count` above `k` the drill
/// proposals include the move from `l` to `c`: a drill proposal that says so
/// and puts a dimension at level `c` of `h`, keeping every other dimension
/// of the last query.
pub proof fn law_drill_deepens_dimension(
    session: JsonV,
    model: JsonV,
    summary: JsonV,
    count: nat,
    k: int,
    h: Seq<char>,
    l: Seq<char>,
    a: int,
    ci: int,
    c: int,
    cn: Seq<char>,
    cu: Seq<char>,
)
    requires
        session.at("mqo_history"@).items().len() > 0,
        names_model_and_measure(last_query(session)),
        0 <= k < last_query(session).at("dimensions"@).items().len(),
        last_query(session).at("dimensions"@).items()[k].at("hierarchy"@).as_str() == Some(h),
        last_query(session).at("dimensions"@).items()[k].at("level"@).as_str() == Some(l),
        deeper_level(model, h, l, a, ci, c),
        model.at("hierarchies"@).items()[a].at("levels"@).items()[c].at("name"@).as_str() == Some(cn),
        cn.len() > 0,
        model.at("hierarchies"@).items()[a].at("levels"@).items()[c].at("unique_name"@).as_str() == Some(
            cu,
        ),
        cu.len() > 0,
        untouched(session, cu),
        count > k,
    ensures
        exists|i: int|
            0 <= i < spec_propose(session, model, summary, count, Strategy::Drill).proposals.len()
                && moves_to(
                #[trigger] spec_propose(session, model, summary, count, Strategy::Drill).proposals[i],
                h,
                l,
                cn,
            ) && keeps_other_dims(
                spec_propose(session, model, summary, count, Strategy::Drill).proposals[i].mqo.at(
                    "dimensions"@,
                ).items(),
                last_query(session).at("dimensions"@).items(),
                h,
                l,
            ),
{
    let t = spec_touched(session);
    lemma_named_query(session);
    lemma_last_query(session);
    let m = last_query(session);
    let mn = spec_last_model_name(session);
    let ms = spec_last_measures(session);
    let ds = spec_last_dimensions(session);
    assert(ds == dim_pairs(m.at("dimensions"@).items()));
    lemma_dim_pairs_has(m.at("dimensions"@).items(), k, h, l);
    let k2 = choose|k2: int| 0 <= k2 <= k && k2 < ds.len() && #[trigger] ds[k2] == (h, l);
    let hs = hierarchies(model);
    let ls = hs[a].at("levels"@).items();
    lemma_first_index_is(hs, text_is("unique_name"@, h), a);
    assert(find_hierarchy(model, h) == Some(hs[a]));
    assert(hs[a].at("levels"@).as_array() == Some(ls));
    lemma_first_index_is(ls, level_named(l), ci);
    let d = ls[ci].at("depth"@).as_u64()->0;
    lemma_first_index_is(ls, depth_is((d + 1) as u64), c);
    assert(spec_child_level(model, h, l) == Some(ls[c]));
    assert(open_level(session, model, a, c));
    lemma_open_level_unvisited(session, model, a, c);
    assert(!t.contains(cu)) by {
        if t.contains(cu) {
            let items = session.at("touched_entities"@).items();
            let i = choose|i: int| 0 <= i < items.len() && (#[trigger] items[i]).as_str() == Some(cu);
            assert(items[i].as_str() != Some(cu));
        }
    }
    assert(drill_target(model, t, ds[k2]) == Some(cn));
    let opts = drill_options(session, model);
    let x = drill_draft(mn, ms, ds, ds[k2], cn);
    assert(opts[k2] == Some(x));
    lemma_somes_has(opts, k2, x);
    let p = choose|p: int| 0 <= p <= k2 && p < somes(opts).len() && #[trigger] somes(opts)[p] == x;
    let first = trunc(somes(opts), count);
    assert(first[p] == x);
    assert(spec_drill(session, model, count) == first);
    let drafts = spec_drafts(session, model, summary, count, Strategy::Drill);
    assert(drafts == first);
    crate::laws::lemma_ranked_trunc(drafts, count);
    let ps = spec_propose(session, model, summary, count, Strategy::Drill).proposals;
    assert(ps == ranked(trunc(drafts, count)));
    assert(ps[p].strategy == x.strategy && ps[p].rationale == x.rationale && ps[p].mqo == x.mqo);
    let nd = drill_dims(ds, ds[k2], cn);
    lemma_mqo_fields(mn, ms, nd, Seq::empty());
    crate::laws::lemma_dim_fields(h, cn);
    assert(nd[k2] == (h, cn));
    let dims = ps[p].mqo.at("dimensions"@).items();
    assert(dims == dims_v(nd));
    assert(dims[k2] == dim_v(h, cn));
    assert(dims[k2].at("hierarchy"@).as_str() == Some(h));
    assert(dims[k2].at("level"@).as_str() == Some(cn));
    assert(moves_to(ps[p], h, l, cn));
    let given = m.at("dimensions"@).items();
    assert forall|j: int|
        0 <= j < given.len() && (#[trigger] given[j]).at("hierarchy"@).as_str() is Some && given[j].at(
            "level"@,
        ).as_str() is Some && (given[j].at("hierarchy"@).as_str() != Some(h) || given[j].at(
            "level"@,
        ).as_str() != Some(l)) implies exists|j2: int|
            0 <= j2 < dims.len() && (#[trigger] dims[j2]).at("hierarchy"@) == given[j].at("hierarchy"@)
                && dims[j2].at("level"@) == given[j].at("level"@) by {
        let h2 = given[j].at("hierarchy"@).as_str()->0;
        let l2 = given[j].at("level"@).as_str()->0;
        lemma_dim_pairs_has(given, j, h2, l2);
        let k3 = choose|k3: int| 0 <= k3 <= j && k3 < ds.len() && #[trigger] ds[k3] == (h2, l2);
        assert(nd[k3] == (h2, l2));
        crate::laws::lemma_dim_fields(h2, l2);
        assert(dims[k3] == dim_v(h2, l2));
    }
    assert(keeps_other_dims(dims, given, h, l));
}


// ── Choosing the strategy ─────────────────────────────────────────────────

/// Whether some column of the summary's `stats` object, at any position,
/// has a `distinct` count above 10.
pub open spec fn has_wide_column(summary: JsonV) -> bool {
    summary.at("stats"@).as_object() matches Some(cols) && exists|c: int|
        0 <= c < cols.len() && wide(#[trigger] cols[c].1)
}

/// Whether a column summary has a `distinct` count above 10.
pub open spec fn wide(column: JsonV) -> bool {
    column.at("distinct"@).as_u64() matches Some(n) && n > 10
}

/// Auto drills on high cardinality: where some column of the summary has
/// more than 10 distinct values and some level entry of the model has a
/// non-empty unique name that the session has not touched, `auto` selects
/// drill, and every proposal it makes is a drill.
pub proof fn law_auto_drills_on_high_cardinality(
    session: JsonV,
    model: JsonV,
    summary: JsonV,
    count: nat,
    a: int,
    b: int,
)
    requires
        has_wide_column(summary),
        open_level(session, model, a, b),
    ensures
        spec_select_auto(session, model, summary) == Strategy::Drill,
        forall|i: int|
            0 <= i < spec_propose(session, model, summary, count, Strategy::Auto).proposals.len()
                ==> (#[trigger] spec_propose(session, model, summary, count, Strategy::Auto).proposals[i]).strategy
                == "drill"@,
{
    lemma_open_level_unvisited(session, model, a, b);
    let cols = summary.at("stats"@).as_object()->0;
    let c = choose|c: int| 0 <= c < cols.len() && wide(#[trigger] cols[c].1);
    assert(distinct_count(cols[c].1) > 10);
    assert(spec_high_cardinality(summary));
    crate::laws::law_count_rank_strategy(session, model, summary, count, Strategy::Auto);
    reveal_strlit("drill");
}

/// Auto drills only on high cardinality: where `auto` selects drill, some
/// column of the summary has more than 10 distinct values and some level
/// entry of the model has a non-empty unique name that the session has not
/// touched.
pub proof fn law_auto_drills_only_on_high_cardinality(session: JsonV, model: JsonV, summary: JsonV)
    requires
        spec_select_auto(session, model, summary) == Strategy::Drill,
    ensures
        has_wide_column(summary),
        exists|a: int, b: int| #[trigger] open_level(session, model, a, b),
{
    let cols = summary.at("stats"@).as_object()->0;
    let c = choose|c: int| 0 <= c < cols.len() && distinct_count(#[trigger] cols[c].1) > 10;
    assert(wide(cols[c].1));
    let t = spec_touched(session);
    let all = spec_all_levels(model);
    let hs = hierarchies(model);
    crate::laws::lemma_unvisited_origin(all, t, 0);
    let l = unvisited_of(all, t)[0];
    let j = choose|j: int| 0 <= j < all.len() && all[j] == l;
    crate::laws::lemma_levels_upto_origin(hs, j);
    let (a, b) = choose|a: int, b: int|
        0 <= a < hs.len() && 0 <= b < level_entries(hs[a]).len() && #[trigger] level_entry(
            str_at(hs[a], "unique_name"@),
            hier_is_time(hs[a]),
            level_entries(hs[a])[b],
        ) == all[j];
    lemma_levels_named(str_at(hs[a], "unique_name"@), hier_is_time(hs[a]), level_entries(hs[a]), j);
    let e = level_entries(hs[a])[b];
    let u = l.unique_name;
    assert(str_at(e, "unique_name"@) == u);
    assert(u.len() > 0) by {
        lemma_levels_upto_named(hs, j);
    }
    assert(e.at("unique_name"@).as_str() == Some(u));
    assert(untouched(session, u)) by {
        let items = session.at("touched_entities"@).items();
        assert forall|i: int| 0 <= i < items.len() implies (#[trigger] items[i]).as_str() != Some(u) by {
            if items[i].as_str() == Some(u) {
                assert(crate::session::is_touched(session, u));
                assert(t.contains(u));
            }
        }
    }
    assert(open_level(session, model, a, b));
}

/// Every level of `levels_of` has a non-empty unique name.
proof fn lemma_levels_named(hier: Seq<char>, is_time: bool, ls: Seq<JsonV>, k: int)
    ensures
        0 <= k < levels_of(hier, is_time, ls).len() ==> levels_of(hier, is_time, ls)[k].unique_name.len() > 0,
    decreases ls.len(),
{
    if ls.len() > 0 {
        lemma_levels_named(hier, is_time, ls.drop_last(), k);
    }
}

/// Every level of the hierarchies has a non-empty unique name.
proof fn lemma_levels_upto_named(hs: Seq<JsonV>, k: int)
    ensures
        0 <= k < levels_upto(hs).len() ==> levels_upto(hs)[k].unique_name.len() > 0,
    decreases hs.len(),
{
    if hs.len() > 0 {
        let init = levels_upto(hs.drop_last());
        lemma_levels_upto_named(hs.drop_last(), k);
        let last = hs.last();
        lemma_levels_named(
            str_at(last, "unique_name"@),
            hier_is_time(last),
            level_entries(last),
            k - init.len(),
        );
    }
}


/// Whether some query of the session's history has a non-empty
/// `time_intelligence` array.
pub open spec fn used_time_intelligence(session: JsonV) -> bool {
    let hist = session.at("mqo_history"@).items();
    exists|i: int|
        0 <= i < hist.len() && (#[trigger] hist[i]).at("mqo"@).at("time_intelligence"@).items().len()
            > 0
}

/// Whether hierarchy `a` is the first of the model marked as time.
pub open spec fn first_time(model: JsonV, a: int) -> bool {
    let hs = model.at("hierarchies"@).items();
    &&& 0 <= a < hs.len()
    &&& hs[a].at("is_time"@).as_bool() == Some(true)
    &&& forall|a2: int| 0 <= a2 < a ==> (#[trigger] hs[a2]).at("is_time"@).as_bool() != Some(true)
}

/// The first hierarchy marked as time is found where there is one.
proof fn lemma_first_time(model: JsonV)
    ensures
        match crate::seqs::first_index(hierarchies(model), time_hierarchy()) {
            Some(a) => first_time(model, a),
            None => forall|a: int|
                0 <= a < hierarchies(model).len() ==> (#[trigger] hierarchies(model)[a]).at(
                    "is_time"@,
                ).as_bool() != Some(true),
        },
{
    let hs = hierarchies(model);
    lemma_first_index(hs, time_hierarchy());
    if let Some(a) = crate::seqs::first_index(hs, time_hierarchy()) {
        assert(hier_is_time(hs[a]));
        assert forall|a2: int| 0 <= a2 < a implies (#[trigger] hs[a2]).at("is_time"@).as_bool() != Some(true) by {
            assert(!time_hierarchy()(hs[a2]));
        }
    } else {
        assert forall|a: int| 0 <= a < hs.len() implies (#[trigger] hs[a]).at("is_time"@).as_bool() != Some(true) by {
            assert(!time_hierarchy()(hs[a]));
        }
    }
}

/// How `auto` chooses: drill where some column of the summary has more
/// than 10 distinct values and some level entry of the model has a
/// non-empty unique name that the session has not touched; else compare
/// where no query of the history used time intelligence and the model's
/// first time hierarchy has a textual unique name; else pivot.
pub proof fn law_auto_selection(session: JsonV, model: JsonV, summary: JsonV)
    ensures
        spec_select_auto(session, model, summary) == if has_wide_column(summary) && exists|a: int, b: int|
            #[trigger] open_level(session, model, a, b) {
            Strategy::Drill
        } else if !used_time_intelligence(session) && exists|a: int|
            #[trigger] first_time(model, a) && model.at("hierarchies"@).items()[a].at(
                "unique_name"@,
            ).as_str() is Some {
            Strategy::Compare
        } else {
            Strategy::Pivot
        },
{
    let t = spec_touched(session);
    let drill = has_wide_column(summary) && exists|a: int, b: int| #[trigger] open_level(session, model, a, b);
    if spec_high_cardinality(summary) && spec_unvisited(model, t).len() > 0 {
        law_auto_drills_only_on_high_cardinality(session, model, summary);
    } else if drill {
        let (a, b) = choose|a: int, b: int| #[trigger] open_level(session, model, a, b);
        law_auto_drills_on_high_cardinality(session, model, summary, 0, a, b);
    }
    let hist = session.at("mqo_history"@).items();
    if crate::session::spec_has_time_intelligence(session) {
        let h = session.at("mqo_history"@).as_array()->0;
        let i = choose|i: int| 0 <= i < h.len() && crate::session::entry_has_time_intelligence(#[trigger] h[i]);
        assert(h == hist);
        assert(hist[i].at("mqo"@).at("time_intelligence"@).items().len() > 0);
    }
    if used_time_intelligence(session) {
        let i = choose|i: int|
            0 <= i < hist.len() && (#[trigger] hist[i]).at("mqo"@).at("time_intelligence"@).items().len() > 0;
        assert(session.at("mqo_history"@).as_array() == Some(hist));
        assert(crate::session::entry_has_time_intelligence(hist[i]));
    }
    lemma_first_time(model);
    let hs = hierarchies(model);
    if exists|a: int| #[trigger] first_time(model, a) && hs[a].at("unique_name"@).as_str() is Some {
        let a = choose|a: int| #[trigger] first_time(model, a) && hs[a].at("unique_name"@).as_str() is Some;
        match crate::seqs::first_index(hs, time_hierarchy()) {
            Some(a1) => {
                if a1 < a {
                    assert(hs[a1].at("is_time"@).as_bool() != Some(true));
                } else if a < a1 {
                    assert(hs[a].at("is_time"@).as_bool() != Some(true));
                }
            },
            None => {
                assert(hs[a].at("is_time"@).as_bool() != Some(true));
            },
        }
    }
    if spec_first_time_hierarchy(model) is Some {
        let a1 = crate::seqs::first_index(hs, time_hierarchy())->0;
        assert(first_time(model, a1));
    }
}

/// Compare also compares year over year where it has room: where the last
/// query names a model and a measure, hierarchy `a0` is the model's first
/// time hierarchy, with unique name `th`, no level entry of a hierarchy
/// with that unique name has been touched, some level entry of the model is
/// open, and `count` is at least 2, compare makes two proposals, the first
/// with a `prior_period` operation, the second with a `yoy` one and a last
/// dimension in hierarchy `th`.
pub proof fn law_compare_year_over_year(
    session: JsonV,
    model: JsonV,
    summary: JsonV,
    count: nat,
    a0: int,
    th: Seq<char>,
    a: int,
    b: int,
)
    requires
        session.at("mqo_history"@).items().len() > 0,
        names_model_and_measure(last_query(session)),
        first_time(model, a0),
        model.at("hierarchies"@).items()[a0].at("unique_name"@).as_str() == Some(th),
        forall|a1: int, b1: int|
            0 <= a1 < model.at("hierarchies"@).items().len() && str_at(
                model.at("hierarchies"@).items()[a1],
                "unique_name"@,
            ) == th && 0 <= b1 < model.at("hierarchies"@).items()[a1].at("levels"@).items().len()
                ==> untouched(
                session,
                str_at(
                    #[trigger] model.at("hierarchies"@).items()[a1].at("levels"@).items()[b1],
                    "unique_name"@,
                ),
            ),
        open_level(session, model, a, b),
        count >= 2,
    ensures
        spec_propose(session, model, summary, count, Strategy::Compare).proposals.len() == 2,
        spec_propose(session, model, summary, count, Strategy::Compare).proposals[0].mqo.at(
            "time_intelligence"@,
        ) == JsonV::Array(seq![JsonV::Object(seq![("op"@, JsonV::Str("prior_period"@))])]),
        spec_propose(session, model, summary, count, Strategy::Compare).proposals[1].mqo.at(
            "time_intelligence"@,
        ) == JsonV::Array(seq![JsonV::Object(seq![("op"@, JsonV::Str("yoy"@))])]),
        spec_propose(session, model, summary, count, Strategy::Compare).proposals[1].mqo.at(
            "dimensions"@,
        ).items().last().at("hierarchy"@) == JsonV::Str(th),
{
    let t = spec_touched(session);
    lemma_named_query(session);
    lemma_open_level_unvisited(session, model, a, b);
    let hs = hierarchies(model);
    lemma_first_time(model);
    let a1 = crate::seqs::first_index(hs, time_hierarchy());
    if let Some(x) = a1 {
        if x < a0 {
            assert(hs[x].at("is_time"@).as_bool() != Some(true));
        } else if a0 < x {
            assert(hs[a0].at("is_time"@).as_bool() != Some(true));
        }
    } else {
        assert(hs[a0].at("is_time"@).as_bool() != Some(true));
    }
    assert(spec_first_time_hierarchy(model) == Some(th));
    let tl = crate::json::str_or(crate::model::spec_coarsest_level(model, th), "Year"@);
    assert(!crate::model::level_touched(model, t, th, tl)) by {
        if crate::model::level_touched(model, t, th, tl) {
            let (x, y) = choose|x: int, y: int|
                0 <= x < hs.len() && 0 <= y < level_entries(hs[x]).len()
                    && #[trigger] crate::model::touched_entry(hs[x], level_entries(hs[x])[y], t, th, tl);
            let u = str_at(level_entries(hs[x])[y], "unique_name"@);
            assert(untouched(session, u));
            let items = session.at("touched_entities"@).items();
            let i = choose|i: int| 0 <= i < items.len() && (#[trigger] items[i]).as_str() == Some(u);
            assert(items[i].as_str() != Some(u));
        }
    }
    let ms = spec_last_measures(session);
    let mn = spec_last_model_name(session);
    let ds = spec_last_dimensions(session);
    let c = spec_compare(session, model, count);
    assert(c.len() == 2);
    let drafts = spec_drafts(session, model, summary, count, Strategy::Compare);
    crate::laws::lemma_ranked_trunc(drafts, count);
    lemma_mqo_fields(mn, ms, ds, seq![crate::mqo::op_v("prior_period"@)]);
    lemma_mqo_fields(mn, ms, ds.push((th, tl)), seq![crate::mqo::op_v("yoy"@)]);
    crate::laws::lemma_dim_fields(th, tl);
    let nd = ds.push((th, tl));
    assert(dims_v(nd).last() == dim_v(th, tl));
}


// ── Pivot ─────────────────────────────────────────────────────────────────

/// Whether the dimension entries `dims` put hierarchy `h` at level `n` and
/// nowhere else, and hold each dimension of `given` that has a textual
/// hierarchy other than `h` and a textual level.
pub open spec fn pivots_dims(dims: Seq<JsonV>, given: Seq<JsonV>, h: Seq<char>, n: Seq<char>) -> bool {
    &&& exists|j: int|
        0 <= j < dims.len() && (#[trigger] dims[j]).at("hierarchy"@) == JsonV::Str(h) && dims[j].at(
            "level"@,
        ) == JsonV::Str(n)
    &&& forall|j: int|
        0 <= j < dims.len() && (#[trigger] dims[j]).at("hierarchy"@) == JsonV::Str(h) ==> dims[j].at(
            "level"@,
        ) == JsonV::Str(n)
    &&& forall|j: int|
        0 <= j < given.len() && (#[trigger] given[j]).at("hierarchy"@).as_str() is Some && given[j].at(
            "hierarchy"@,
        ).as_str() != Some(h) && given[j].at("level"@).as_str() is Some ==> exists|j2: int|
            0 <= j2 < dims.len() && (#[trigger] dims[j2]).at("hierarchy"@) == given[j].at("hierarchy"@)
                && dims[j2].at("level"@) == given[j].at("level"@)
}

/// Whether proposal `p` is the pivot to level entry `b` of hierarchy `a`,
/// from the dimensions `given` of the last query.
pub open spec fn pivots_to(p: ProposalV, model: JsonV, given: Seq<JsonV>, a: int, b: int) -> bool {
    let hier = model.at("hierarchies"@).items()[a];
    let hn = str_at(hier, "unique_name"@);
    let n = str_at(hier.at("levels"@).items()[b], "name"@);
    &&& p.strategy == "pivot"@
    &&& p.rationale == "Pivot to adjacent dimension '"@ + n + "' (hierarchy: '"@ + hn + "')"@
    &&& pivots_dims(p.mqo.at("dimensions"@).items(), given, hn, n)
}

/// Whether proposal `p` is the pivot to some level entry of the model that
/// is open and not of a hierarchy marked as time.
pub open spec fn pivots_to_open_level(session: JsonV, model: JsonV, p: ProposalV) -> bool {
    exists|a: int, b: int|
        #![trigger open_level(session, model, a, b)]
        open_level(session, model, a, b) && model.at("hierarchies"@).items()[a].at("is_time"@).as_bool()
            != Some(true) && pivots_to(p, model, last_query(session).at("dimensions"@).items(), a, b)
}

/// Pivot goes to untouched levels off the time axis: each pivot proposal
/// moves to a level entry `b` of a hierarchy `a` of the model that is not
/// marked as time, whose unique name is non-empty and untouched by the
/// session. It says so, sets every dimension of that hierarchy to that
/// level (adding one where the last query has none), and keeps every
/// dimension of the last query in another hierarchy.
pub proof fn law_pivot_moves(session: JsonV, model: JsonV, summary: JsonV, count: nat)
    ensures
        forall|i: int|
            0 <= i < spec_propose(session, model, summary, count, Strategy::Pivot).proposals.len()
                ==> pivots_to_open_level(
                session,
                model,
                #[trigger] spec_propose(session, model, summary, count, Strategy::Pivot).proposals[i],
            ),
{
    let ps = spec_propose(session, model, summary, count, Strategy::Pivot).proposals;
    let drafts = spec_drafts(session, model, summary, count, Strategy::Pivot);
    crate::laws::lemma_ranked_trunc(drafts, count);
    if ps.len() > 0 {
        crate::laws::lemma_drafts_shape(session, model, summary, count, Strategy::Pivot);
        assert(drafts == spec_pivot(session, model, count));
        assert(spec_last_mqo(session) is Some);
        assert(session.at("mqo_history"@).items().len() > 0);
        assert(trunc(drafts, count) =~= drafts);
        assert forall|i: int| 0 <= i < ps.len() implies pivots_to_open_level(
            session,
            model,
            #[trigger] ps[i],
        ) by {
            assert(ps[i] == ranked(spec_pivot(session, model, count))[i]);
            lemma_pivot_one(session, model, count, i);
        }
    }
}

/// Pivot draft `i` is the pivot to an open level entry off the time axis.
proof fn lemma_pivot_one(session: JsonV, model: JsonV, count: nat, i: int)
    requires
        0 <= i < spec_pivot(session, model, count).len(),
        session.at("mqo_history"@).items().len() > 0,
    ensures
        pivots_to_open_level(session, model, ranked(spec_pivot(session, model, count))[i]),
{
    lemma_last_query(session);
    let t = spec_touched(session);
    let ms = spec_last_measures(session);
    let mn = spec_last_model_name(session);
    let ds = spec_last_dimensions(session);
    let cands = pivot_candidates(session, model);
    let c = trunc(cands, count);
    let l = c[i];
    assert(cands[i] == l);
    let u = spec_unvisited(model, t);
    crate::laws::lemma_non_time_origin(u, i);
    let j1 = choose|j1: int| 0 <= j1 < u.len() && u[j1] == non_time(u)[i];
    let all = spec_all_levels(model);
    crate::laws::lemma_unvisited_origin(all, t, j1);
    let j = choose|j: int| 0 <= j < all.len() && all[j] == unvisited_of(all, t)[j1];
    let hs = hierarchies(model);
    crate::laws::lemma_levels_upto_origin(hs, j);
    let (a, b) = choose|a: int, b: int|
        0 <= a < hs.len() && 0 <= b < level_entries(hs[a]).len() && #[trigger] level_entry(
            str_at(hs[a], "unique_name"@),
            hier_is_time(hs[a]),
            level_entries(hs[a])[b],
        ) == all[j];
    lemma_levels_upto_named(hs, j);
    lemma_non_time_flags(u, i);
    let e = level_entries(hs[a])[b];
    let un = l.unique_name;
    assert(str_at(e, "unique_name"@) == un);
    assert(e.at("unique_name"@).as_str() == Some(un));
    assert(untouched(session, un)) by {
        let items = session.at("touched_entities"@).items();
        assert forall|k: int| 0 <= k < items.len() implies (#[trigger] items[k]).as_str() != Some(un) by {
            if items[k].as_str() == Some(un) {
                assert(crate::session::is_touched(session, un));
                assert(t.contains(un));
            }
        }
    }
    assert(open_level(session, model, a, b));
    assert(!hier_is_time(hs[a]));
    let hn = l.hierarchy;
    let n = l.name;
    let p = ranked(spec_pivot(session, model, count))[i];
    let nd = crate::proposer::pivot_dims(ds, l);
    lemma_mqo_fields(mn, ms, nd, Seq::empty());
    let dims = p.mqo.at("dimensions"@).items();
    assert(dims == dims_v(nd));
    let given = last_query(session).at("dimensions"@).items();
    assert(ds == dim_pairs(given));
    // hierarchy h is at level n
    if crate::proposer::has_hierarchy(ds, hn) {
        let k = choose|k: int| 0 <= k < ds.len() && (#[trigger] ds[k]).0 == hn;
        assert(nd[k] == (hn, n));
        crate::laws::lemma_dim_fields(hn, n);
        assert(dims[k] == dim_v(hn, n));
    } else {
        assert(nd[ds.len() as int] == (hn, n));
        crate::laws::lemma_dim_fields(hn, n);
        assert(dims[ds.len() as int] == dim_v(hn, n));
    }
    assert forall|k: int|
        0 <= k < dims.len() && (#[trigger] dims[k]).at("hierarchy"@) == JsonV::Str(hn) implies dims[k].at(
            "level"@,
        ) == JsonV::Str(n) by {
        crate::laws::lemma_dim_fields(nd[k].0, nd[k].1);
        assert(dims[k] == dim_v(nd[k].0, nd[k].1));
        assert(nd[k].0 == hn);
    }
    assert forall|k: int|
        0 <= k < given.len() && (#[trigger] given[k]).at("hierarchy"@).as_str() is Some && given[k].at(
            "hierarchy"@,
        ).as_str() != Some(hn) && given[k].at("level"@).as_str() is Some implies exists|j2: int|
            0 <= j2 < dims.len() && (#[trigger] dims[j2]).at("hierarchy"@) == given[k].at("hierarchy"@)
                && dims[j2].at("level"@) == given[k].at("level"@) by {
        let h2 = given[k].at("hierarchy"@).as_str()->0;
        let l2 = given[k].at("level"@).as_str()->0;
        lemma_dim_pairs_has(given, k, h2, l2);
        let k3 = choose|k3: int| 0 <= k3 <= k && k3 < ds.len() && #[trigger] ds[k3] == (h2, l2);
        assert(nd[k3] == (h2, l2));
        crate::laws::lemma_dim_fields(h2, l2);
        assert(dims[k3] == dim_v(h2, l2));
    }
    assert(pivots_dims(dims, given, hn, n));
    reveal_strlit("pivot");
    assert(pivots_to(p, model, given, a, b));
}

/// The levels off the time axis are not of a time hierarchy.
proof fn lemma_non_time_flags(levels: Seq<LevelV>, i: int)
    ensures
        0 <= i < non_time(levels).len() ==> !non_time(levels)[i].is_time,
    decreases levels.len(),
{
    if levels.len() > 0 {
        lemma_non_time_flags(levels.drop_last(), i);
    }
}


// ── The level below ───────────────────────────────────────────────────────

/// The level below level `l` of hierarchy `h` is found by the first
/// hierarchy with unique name `h`, in it the first level entry named `l`
/// (by name or unique name), and the first entry one step deeper: where
/// those exist the child level is that entry, and where the child level is
/// some entry they exist.
pub proof fn law_child_level(model: JsonV, h: Seq<char>, l: Seq<char>)
    ensures
        forall|a: int, ci: int, c: int|
            #[trigger] deeper_level(model, h, l, a, ci, c) ==> spec_child_level(model, h, l) == Some(
                model.at("hierarchies"@).items()[a].at("levels"@).items()[c],
            ),
        spec_child_level(model, h, l) is Some ==> exists|a: int, ci: int, c: int|
            #[trigger] deeper_level(model, h, l, a, ci, c) && spec_child_level(model, h, l) == Some(
                model.at("hierarchies"@).items()[a].at("levels"@).items()[c],
            ),
{
    let hs = hierarchies(model);
    assert forall|a: int, ci: int, c: int| #[trigger] deeper_level(model, h, l, a, ci, c) implies spec_child_level(
        model,
        h,
        l,
    ) == Some(hs[a].at("levels"@).items()[c]) by {
        let ls = hs[a].at("levels"@).items();
        lemma_first_index_is(hs, text_is("unique_name"@, h), a);
        assert(hs[a].at("levels"@).as_array() == Some(ls));
        lemma_first_index_is(ls, level_named(l), ci);
        let d = ls[ci].at("depth"@).as_u64()->0;
        lemma_first_index_is(ls, depth_is((d + 1) as u64), c);
    }
    if spec_child_level(model, h, l) is Some {
        lemma_first_index(hs, text_is("unique_name"@, h));
        let a = crate::seqs::first_index(hs, text_is("unique_name"@, h))->0;
        let ls = hs[a].at("levels"@).as_array()->0;
        assert(ls == hs[a].at("levels"@).items());
        lemma_first_index(ls, level_named(l));
        let ci = crate::seqs::first_index(ls, level_named(l))->0;
        let d = ls[ci].at("depth"@).as_u64()->0;
        lemma_first_index(ls, depth_is((d + 1) as u64));
        let c = crate::seqs::first_index(ls, depth_is((d + 1) as u64))->0;
        assert forall|a2: int| 0 <= a2 < a implies (#[trigger] hs[a2]).at("unique_name"@).as_str() != Some(h) by {
            assert(!text_is("unique_name"@, h)(hs[a2]));
        }
        assert forall|j: int| 0 <= j < ci implies (#[trigger] ls[j]).at("name"@).as_str() != Some(l) && ls[j].at(
            "unique_name"@,
        ).as_str() != Some(l) by {
            assert(!level_named(l)(ls[j]));
        }
        assert forall|j: int| 0 <= j < c implies (#[trigger] ls[j]).at("depth"@).as_u64() != Some((d + 1) as u64) by {
            assert(!depth_is((d + 1) as u64)(ls[j]));
        }
        assert(text_is("unique_name"@, h)(hs[a]));
        assert(level_named(l)(ls[ci]));
        assert(depth_is((d + 1) as u64)(ls[c]));
        assert(deeper_level(model, h, l, a, ci, c));
    }
}


// ── What is read of the session and the model ─────────────────────────────

/// Whether `names` holds, in order, the text `t` of member `key` of each
/// entry of `given` where that member is text, and nothing else.
pub open spec fn lists_texts(names: Seq<Seq<char>>, given: Seq<JsonV>, key: Seq<char>) -> bool {
    &&& names.len() == texts_before(given, key, given.len() as int)
    &&& forall|p: int|
        0 <= p < given.len() && (#[trigger] given[p]).at(key).as_str() is Some ==> names[texts_before(
            given,
            key,
            p,
        ) as int] == given[p].at(key).as_str()->0
}

/// The measures of the last query are the textual unique names of its
/// measure entries, in order; there are none where the history is empty.
pub proof fn law_last_measures(session: JsonV)
    ensures
        session.at("mqo_history"@).items().len() > 0 ==> lists_texts(
            spec_last_measures(session),
            last_query(session).at("measures"@).items(),
            "unique_name"@,
        ),
        session.at("mqo_history"@).items().len() == 0 ==> spec_last_measures(session).len() == 0,
{
    if session.at("mqo_history"@).items().len() > 0 {
        lemma_last_query(session);
        lemma_texts_at_all(last_query(session).at("measures"@).items(), "unique_name"@);
    }
}

/// The measures of the model are the textual unique names of its measure
/// entries, in order.
pub proof fn law_all_measures(model: JsonV)
    ensures
        lists_texts(
            texts_at(model.at("measures"@).items(), "unique_name"@),
            model.at("measures"@).items(),
            "unique_name"@,
        ),
{
    lemma_texts_at_all(model.at("measures"@).items(), "unique_name"@);
}

/// The number of entries of `items` before index `p` whose `hierarchy` and
/// `level` are both text.
pub open spec fn pairs_before(items: Seq<JsonV>, p: int) -> nat
    decreases p,
{
    if p <= 0 {
        0
    } else {
        pairs_before(items, p - 1) + if items[p - 1].at("hierarchy"@).as_str() is Some && items[p
            - 1].at("level"@).as_str() is Some {
            1nat
        } else {
            0nat
        }
    }
}

/// `dim_pairs` keeps the dimensions in order: the pair of the entry at `j`
/// stands at the number of such entries before `j`.
#[verifier::spinoff_prover]
#[verifier::rlimit(30)]
proof fn lemma_dim_pairs_positions(items: Seq<JsonV>, p: int)
    requires
        0 <= p <= items.len(),
    ensures
        dim_pairs(items.take(p)).len() == pairs_before(items, p),
        forall|j: int|
            0 <= j < p && (#[trigger] items[j]).at("hierarchy"@).as_str() is Some && items[j].at(
                "level"@,
            ).as_str() is Some ==> pairs_before(items, j) < pairs_before(items, p) && dim_pairs(
                items.take(p),
            )[pairs_before(items, j) as int] == (
                items[j].at("hierarchy"@).as_str()->0,
                items[j].at("level"@).as_str()->0,
            ),
    decreases p,
{
    if p > 0 {
        lemma_dim_pairs_positions(items, p - 1);
        let before = dim_pairs(items.take(p - 1));
        assert(items.take(p).drop_last() =~= items.take(p - 1));
        assert(items.take(p).last() == items[p - 1]);
        assert forall|j: int|
            0 <= j < p && (#[trigger] items[j]).at("hierarchy"@).as_str() is Some && items[j].at(
                "level"@,
            ).as_str() is Some implies pairs_before(items, j) < pairs_before(items, p) && dim_pairs(
                items.take(p),
            )[pairs_before(items, j) as int] == (
                items[j].at("hierarchy"@).as_str()->0,
                items[j].at("level"@).as_str()->0,
            ) by {
            if j < p - 1 {
                assert(before[pairs_before(items, j) as int] == (
                    items[j].at("hierarchy"@).as_str()->0,
                    items[j].at("level"@).as_str()->0,
                ));
            }
        }
    } else {
        assert(items.take(p) =~= Seq::<JsonV>::empty());
    }
}

/// The dimensions of the last query are the (hierarchy, level) texts of
/// its dimension entries that have both, in order; there are none where the
/// history is empty.
pub proof fn law_last_dimensions(session: JsonV)
    ensures
        session.at("mqo_history"@).items().len() > 0 ==> {
            let given = last_query(session).at("dimensions"@).items();
            &&& spec_last_dimensions(session).len() == pairs_before(given, given.len() as int)
            &&& forall|p: int|
                0 <= p < given.len() && (#[trigger] given[p]).at("hierarchy"@).as_str() is Some
                    && given[p].at("level"@).as_str() is Some ==> spec_last_dimensions(
                    session,
                )[pairs_before(given, p) as int] == (
                    given[p].at("hierarchy"@).as_str()->0,
                    given[p].at("level"@).as_str()->0,
                )
        },
        session.at("mqo_history"@).items().len() == 0 ==> spec_last_dimensions(session).len() == 0,
{
    if session.at("mqo_history"@).items().len() > 0 {
        lemma_last_query(session);
        let given = last_query(session).at("dimensions"@).items();
        lemma_dim_pairs_positions(given, given.len() as int);
        assert(given.take(given.len() as int) =~= given);
    }
}

/// The level that level entry `b` of hierarchy `a` of the model describes:
/// its unique name, its name, its depth (1 where it has none), the unique
/// name of its hierarchy, and whether that hierarchy is marked as time.
pub open spec fn entry_level(model: JsonV, a: int, b: int) -> LevelV {
    let hier = model.at("hierarchies"@).items()[a];
    let e = hier.at("levels"@).items()[b];
    LevelV {
        unique_name: str_at(e, "unique_name"@),
        name: str_at(e, "name"@),
        depth: match e.at("depth"@).as_u64() {
            Some(d) => d,
            None => 1,
        },
        hierarchy: str_at(hier, "unique_name"@),
        is_time: hier.at("is_time"@).as_bool() == Some(true),
    }
}

/// Whether level entry `b` of hierarchy `a` of the model exists and has a
/// non-empty textual unique name.
pub open spec fn named_level_entry(model: JsonV, a: int, b: int) -> bool {
    let hs = model.at("hierarchies"@).items();
    &&& 0 <= a < hs.len()
    &&& 0 <= b < hs[a].at("levels"@).items().len()
    &&& str_at(hs[a].at("levels"@).items()[b], "unique_name"@).len() > 0
}

/// The levels of the model are those its level entries with a non-empty
/// unique name describe, each of them; and the unvisited levels are those
/// of them whose unique name is not touched.
pub proof fn law_levels_of_model(model: JsonV, touched: Set<Seq<char>>, l: LevelV)
    ensures
        spec_all_levels(model).contains(l) <==> exists|a: int, b: int|
            #[trigger] named_level_entry(model, a, b) && entry_level(model, a, b) == l,
        spec_unvisited(model, touched).contains(l) <==> spec_all_levels(model).contains(l)
            && !touched.contains(l.unique_name),
{
    let hs = hierarchies(model);
    let all = spec_all_levels(model);
    if exists|a: int, b: int| #[trigger] named_level_entry(model, a, b) && entry_level(model, a, b) == l {
        let (a, b) = choose|a: int, b: int| #[trigger] named_level_entry(model, a, b) && entry_level(model, a, b) == l;
        lemma_levels_upto_has(hs, a, b);
        assert(level_entry(str_at(hs[a], "unique_name"@), hier_is_time(hs[a]), level_entries(hs[a])[b]) == l);
    }
    if all.contains(l) {
        let j = choose|j: int| 0 <= j < all.len() && all[j] == l;
        crate::laws::lemma_levels_upto_origin(hs, j);
        let (a, b) = choose|a: int, b: int|
            0 <= a < hs.len() && 0 <= b < level_entries(hs[a]).len() && #[trigger] level_entry(
                str_at(hs[a], "unique_name"@),
                hier_is_time(hs[a]),
                level_entries(hs[a])[b],
            ) == all[j];
        lemma_levels_upto_named(hs, j);
        assert(entry_level(model, a, b) == l);
        assert(named_level_entry(model, a, b));
    }
    if spec_unvisited(model, touched).contains(l) {
        let u = spec_unvisited(model, touched);
        let k = choose|k: int| 0 <= k < u.len() && u[k] == l;
        crate::laws::lemma_unvisited_origin(all, touched, k);
    }
    if all.contains(l) && !touched.contains(l.unique_name) {
        lemma_unvisited_has(all, touched, l);
    }
}

/// The first time hierarchy is the unique name of the first hierarchy
/// marked as time, where it is text; there is none where no hierarchy is
/// marked as time.
pub proof fn law_first_time_hierarchy(model: JsonV)
    ensures
        forall|a: int|
            #[trigger] first_time(model, a) ==> spec_first_time_hierarchy(model)
                == model.at("hierarchies"@).items()[a].at("unique_name"@).as_str(),
        (forall|a: int|
            0 <= a < model.at("hierarchies"@).items().len() ==> (#[trigger] model.at(
                "hierarchies"@,
            ).items()[a]).at("is_time"@).as_bool() != Some(true)) ==> spec_first_time_hierarchy(model)
            is None,
{
    lemma_first_time(model);
    let hs = hierarchies(model);
    assert forall|a: int| #[trigger] first_time(model, a) implies spec_first_time_hierarchy(model)
        == hs[a].at("unique_name"@).as_str() by {
        match crate::seqs::first_index(hs, time_hierarchy()) {
            Some(a1) => {
                if a1 < a {
                    assert(hs[a1].at("is_time"@).as_bool() != Some(true));
                } else if a < a1 {
                    assert(hs[a].at("is_time"@).as_bool() != Some(true));
                }
            },
            None => {
                assert(hs[a].at("is_time"@).as_bool() != Some(true));
            },
        }
    }
    if spec_first_time_hierarchy(model) is Some {
        let a1 = crate::seqs::first_index(hs, time_hierarchy())->0;
        assert(first_time(model, a1));
    }
}


// ── The coarsest level ────────────────────────────────────────────────────

/// Whether hierarchy `a` is the first of the model whose unique name is `h`.
pub open spec fn first_named(model: JsonV, h: Seq<char>, a: int) -> bool {
    let hs = model.at("hierarchies"@).items();
    &&& 0 <= a < hs.len()
    &&& hs[a].at("unique_name"@).as_str() == Some(h)
    &&& forall|a2: int| 0 <= a2 < a ==> (#[trigger] hs[a2]).at("unique_name"@).as_str() != Some(h)
}

/// Whether level entry `k` of `ls` has a depth, no entry has a smaller one,
/// and no earlier entry has the same.
pub open spec fn first_shallowest(ls: Seq<JsonV>, k: int) -> bool {
    &&& 0 <= k < ls.len()
    &&& ls[k].at("depth"@).as_u64() is Some
    &&& forall|j: int|
        0 <= j < ls.len() ==> (#[trigger] ls[j]).at("depth"@).as_u64() is None || ls[k].at(
            "depth"@,
        ).as_u64()->0 <= ls[j].at("depth"@).as_u64()->0
    &&& forall|j: int| 0 <= j < k ==> (#[trigger] ls[j]).at("depth"@).as_u64() != ls[k].at("depth"@).as_u64()
}

/// The coarsest level of hierarchy `h` is the name of the first of its
/// level entries at the least depth, in the first hierarchy named `h`;
/// there is none where no hierarchy is named `h`, or where no level entry
/// of that hierarchy has a depth.
pub proof fn law_coarsest_level(model: JsonV, h: Seq<char>)
    ensures
        forall|a: int, k: int|
            #[trigger] first_named(model, h, a) && #[trigger] first_shallowest(
                model.at("hierarchies"@).items()[a].at("levels"@).items(),
                k,
            ) ==> crate::model::spec_coarsest_level(model, h) == model.at("hierarchies"@).items()[a].at(
                "levels"@,
            ).items()[k].at("name"@).as_str(),
        (forall|a: int| !#[trigger] first_named(model, h, a)) ==> crate::model::spec_coarsest_level(
            model,
            h,
        ) is None,
        forall|a: int|
            #[trigger] first_named(model, h, a) && (forall|j: int|
                0 <= j < model.at("hierarchies"@).items()[a].at("levels"@).items().len() ==> (
                #[trigger] model.at("hierarchies"@).items()[a].at("levels"@).items()[j]).at(
                    "depth"@,
                ).as_u64() is None) ==> crate::model::spec_coarsest_level(model, h) is None,
{
    let hs = hierarchies(model);
    assert forall|a: int| #[trigger] first_named(model, h, a) implies find_hierarchy(model, h) == Some(hs[a]) by {
        lemma_first_index_is(hs, text_is("unique_name"@, h), a);
    }
    assert forall|a: int, k: int|
        #[trigger] first_named(model, h, a) && #[trigger] first_shallowest(
            hs[a].at("levels"@).items(),
            k,
        ) implies crate::model::spec_coarsest_level(model, h) == hs[a].at("levels"@).items()[k].at(
            "name"@,
        ).as_str() by {
        let ls = hs[a].at("levels"@).items();
        assert(hs[a].at("levels"@).as_array() == Some(ls));
        crate::model::lemma_min_depth(ls);
        let d = ls[k].at("depth"@).as_u64()->0;
        let m = crate::model::min_depth(ls)->0;
        let k0 = choose|k0: int| 0 <= k0 < ls.len() && (#[trigger] ls[k0]).at("depth"@).as_u64() == Some(m);
        assert(m <= d);
        assert(d <= ls[k0].at("depth"@).as_u64()->0);
        lemma_first_index_is(ls, depth_is(d), k);
    }
    if forall|a: int| !#[trigger] first_named(model, h, a) {
        lemma_first_index(hs, text_is("unique_name"@, h));
        if let Some(a) = crate::seqs::first_index(hs, text_is("unique_name"@, h)) {
            assert forall|a2: int| 0 <= a2 < a implies (#[trigger] hs[a2]).at("unique_name"@).as_str() != Some(h) by {
                assert(!text_is("unique_name"@, h)(hs[a2]));
            }
            assert(first_named(model, h, a));
        }
    }
    assert forall|a: int|
        #[trigger] first_named(model, h, a) && (forall|j: int|
            0 <= j < hs[a].at("levels"@).items().len() ==> (#[trigger] hs[a].at("levels"@).items()[j]).at(
                "depth"@,
            ).as_u64() is None) implies crate::model::spec_coarsest_level(model, h) is None by {
        let ls = hs[a].at("levels"@).items();
        crate::model::lemma_min_depth(ls);
        if let Some(m) = crate::model::min_depth(ls) {
            let k0 = choose|k0: int| 0 <= k0 < ls.len() && (#[trigger] ls[k0]).at("depth"@).as_u64() == Some(m);
            assert(ls[k0].at("depth"@).as_u64() is None);
        }
        if hs[a].at("levels"@).as_array() is Some {
            assert(hs[a].at("levels"@).as_array() == Some(ls));
        }
    }
}


// ── Drill, proposal by proposal ───────────────────────────────────────────

/// Whether proposal `p` drills dimension entry `k` of the last query, of
/// hierarchy `h` at level `l`, to level entry `c` of hierarchy `a` of the
/// model: a hierarchy with unique name `h`, whose entry `c` has a non-empty
/// name and a unique name the session has not touched.
pub open spec fn drills_dimension(session: JsonV, model: JsonV, p: ProposalV, k: int, a: int, c: int) -> bool {
    let given = last_query(session).at("dimensions"@).items();
    let hs = model.at("hierarchies"@).items();
    let h = given[k].at("hierarchy"@).as_str()->0;
    let l = given[k].at("level"@).as_str()->0;
    let e = hs[a].at("levels"@).items()[c];
    &&& 0 <= k < given.len()
    &&& given[k].at("hierarchy"@).as_str() is Some
    &&& given[k].at("level"@).as_str() is Some
    &&& 0 <= a < hs.len()
    &&& 0 <= c < hs[a].at("levels"@).items().len()
    &&& hs[a].at("unique_name"@).as_str() == Some(h)
    &&& str_at(e, "name"@).len() > 0
    &&& untouched(session, str_at(e, "unique_name"@))
    &&& moves_to(p, h, l, str_at(e, "name"@))
    &&& keeps_other_dims(p.mqo.at("dimensions"@).items(), given, h, l)
}

/// Whether proposal `p` is the drill to level entry `b` of hierarchy `a`,
/// as the only dimension.
pub open spec fn drills_to_level(model: JsonV, p: ProposalV, a: int, b: int) -> bool {
    let hier = model.at("hierarchies"@).items()[a];
    let hn = str_at(hier, "unique_name"@);
    let n = str_at(hier.at("levels"@).items()[b], "name"@);
    &&& p.strategy == "drill"@
    &&& p.rationale == "Unvisited level '"@ + n + "' in hierarchy '"@ + hn + "'"@
    &&& p.mqo.at("dimensions"@).items() == seq![
        JsonV::Object(seq![("hierarchy"@, JsonV::Str(hn)), ("level"@, JsonV::Str(n))]),
    ]
}

/// Every pair of the dimension entries comes from an entry with both texts.
proof fn lemma_dim_pairs_origin(items: Seq<JsonV>, k: int)
    requires
        0 <= k < dim_pairs(items).len(),
    ensures
        exists|j: int|
            0 <= j < items.len() && (#[trigger] items[j]).at("hierarchy"@).as_str() == Some(
                dim_pairs(items)[k].0,
            ) && items[j].at("level"@).as_str() == Some(dim_pairs(items)[k].1),
    decreases items.len(),
{
    let init = items.drop_last();
    lemma_dim_pairs_len(init);
    if k < dim_pairs(init).len() {
        lemma_dim_pairs_origin(init, k);
        let j = choose|j: int|
            0 <= j < init.len() && (#[trigger] init[j]).at("hierarchy"@).as_str() == Some(
                dim_pairs(init)[k].0,
            ) && init[j].at("level"@).as_str() == Some(dim_pairs(init)[k].1);
        assert(items[j] == init[j]);
    } else {
        assert(items[items.len() - 1].at("hierarchy"@).as_str() == Some(dim_pairs(items)[k].0));
    }
}

/// Each drill proposal is one of two kinds: the move of a dimension of the
/// last query one level deeper, to a named level whose unique name the
/// session has not touched, keeping the other dimensions; or, where no
/// dimension can move, the drill to a level of the model whose non-empty
/// unique name the session has not touched, as the only dimension.
pub proof fn law_drill_proposals(session: JsonV, model: JsonV, summary: JsonV, count: nat)
    ensures
        forall|i: int|
            0 <= i < spec_propose(session, model, summary, count, Strategy::Drill).proposals.len()
                ==> drills_somewhere(
                session,
                model,
                #[trigger] spec_propose(session, model, summary, count, Strategy::Drill).proposals[i],
            ),
{
    let ps = spec_propose(session, model, summary, count, Strategy::Drill).proposals;
    let drafts = spec_drafts(session, model, summary, count, Strategy::Drill);
    crate::laws::lemma_ranked_trunc(drafts, count);
    if ps.len() > 0 {
        crate::laws::lemma_drafts_shape(session, model, summary, count, Strategy::Drill);
        assert(drafts == spec_drill(session, model, count));
        assert(spec_last_mqo(session) is Some);
        assert(session.at("mqo_history"@).items().len() > 0);
        assert(trunc(drafts, count) =~= drafts);
        assert forall|i: int| 0 <= i < ps.len() implies drills_somewhere(session, model, #[trigger] ps[i]) by {
            assert(ps[i] == ranked(spec_drill(session, model, count))[i]);
            lemma_drill_one(session, model, count, i);
        }
    }
}

/// Whether proposal `p` drills a dimension of the last query, or drills to
/// an open level entry.
pub open spec fn drills_somewhere(session: JsonV, model: JsonV, p: ProposalV) -> bool {
    ||| exists|k: int, a: int, c: int| #[trigger] drills_dimension(session, model, p, k, a, c)
    ||| exists|a: int, b: int|
        #![trigger open_level(session, model, a, b)]
        open_level(session, model, a, b) && drills_to_level(model, p, a, b)
}

/// Drill draft `i` drills a dimension of the last query or to an open level
/// entry.
proof fn lemma_drill_one(session: JsonV, model: JsonV, count: nat, i: int)
    requires
        0 <= i < spec_drill(session, model, count).len(),
        session.at("mqo_history"@).items().len() > 0,
    ensures
        drills_somewhere(session, model, ranked(spec_drill(session, model, count))[i]),
{
    lemma_last_query(session);
    let t = spec_touched(session);
    let ms = spec_last_measures(session);
    let mn = spec_last_model_name(session);
    let ds = spec_last_dimensions(session);
    let given = last_query(session).at("dimensions"@).items();
    assert(ds == dim_pairs(given));
    let hs = hierarchies(model);
    let p = ranked(spec_drill(session, model, count))[i];
    let opts = drill_options(session, model);
    let first = trunc(somes(opts), count);
    if first.len() > 0 {
        crate::seqs::lemma_somes_origin(opts, i);
        let j = choose|j: int| i <= j < opts.len() && opts[j] == Some(somes(opts)[i]);
        let cn = drill_target(model, t, ds[j])->0;
        let (h, l) = ds[j];
        law_child_level(model, h, l);
        let (a, ci, c) = choose|a: int, ci: int, c: int|
            #[trigger] deeper_level(model, h, l, a, ci, c) && spec_child_level(model, h, l) == Some(
                hs[a].at("levels"@).items()[c],
            );
        let e = hs[a].at("levels"@).items()[c];
        assert(str_at(e, "name"@) == cn);
        let un = str_at(e, "unique_name"@);
        assert(!t.contains(un));
        assert(untouched(session, un)) by {
            let items = session.at("touched_entities"@).items();
            assert forall|q: int| 0 <= q < items.len() implies (#[trigger] items[q]).as_str() != Some(un) by {
                if items[q].as_str() == Some(un) {
                    assert(crate::session::is_touched(session, un));
                    assert(t.contains(un));
                }
            }
        }
        lemma_dim_pairs_origin(given, j);
        let k = choose|k: int|
            0 <= k < given.len() && (#[trigger] given[k]).at("hierarchy"@).as_str() == Some(h)
                && given[k].at("level"@).as_str() == Some(l);
        let nd = drill_dims(ds, ds[j], cn);
        lemma_mqo_fields(mn, ms, nd, Seq::empty());
        let dims = p.mqo.at("dimensions"@).items();
        assert(dims == dims_v(nd));
        crate::laws::lemma_dim_fields(h, cn);
        assert(nd[j] == (h, cn));
        assert(dims[j] == dim_v(h, cn));
        assert(moves_to(p, h, l, cn));
        assert forall|q: int|
            0 <= q < given.len() && (#[trigger] given[q]).at("hierarchy"@).as_str() is Some && given[q].at(
                "level"@,
            ).as_str() is Some && (given[q].at("hierarchy"@).as_str() != Some(h) || given[q].at(
                "level"@,
            ).as_str() != Some(l)) implies exists|j2: int|
                0 <= j2 < dims.len() && (#[trigger] dims[j2]).at("hierarchy"@) == given[q].at("hierarchy"@)
                    && dims[j2].at("level"@) == given[q].at("level"@) by {
            let h2 = given[q].at("hierarchy"@).as_str()->0;
            let l2 = given[q].at("level"@).as_str()->0;
            lemma_dim_pairs_has(given, q, h2, l2);
            let k3 = choose|k3: int| 0 <= k3 <= q && k3 < ds.len() && #[trigger] ds[k3] == (h2, l2);
            assert(nd[k3] == (h2, l2));
            crate::laws::lemma_dim_fields(h2, l2);
            assert(dims[k3] == dim_v(h2, l2));
        }
        assert(keeps_other_dims(dims, given, h, l));
        assert(drills_dimension(session, model, p, k, a, c));
    } else {
        let u = trunc(spec_unvisited(model, t), count);
        let lv = u[i];
        assert(spec_unvisited(model, t)[i] == lv);
        law_levels_of_model(model, t, lv);
        let (a, b) = choose|a: int, b: int| #[trigger] named_level_entry(model, a, b) && entry_level(model, a, b) == lv;
        let e = hs[a].at("levels"@).items()[b];
        let un = lv.unique_name;
        assert(e.at("unique_name"@).as_str() == Some(un));
        assert(untouched(session, un)) by {
            let items = session.at("touched_entities"@).items();
            assert forall|q: int| 0 <= q < items.len() implies (#[trigger] items[q]).as_str() != Some(un) by {
                if items[q].as_str() == Some(un) {
                    assert(crate::session::is_touched(session, un));
                    assert(t.contains(un));
                }
            }
        }
        assert(open_level(session, model, a, b));
        let one = seq![(lv.hierarchy, lv.name)];
        lemma_mqo_fields(mn, ms, one, Seq::empty());
        assert(dims_v(one) =~= seq![dim_v(lv.hierarchy, lv.name)]);
        reveal_strlit("drill");
        assert(drills_to_level(model, p, a, b));
    }
}

} // verus!
