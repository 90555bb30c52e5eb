//! What holds of every output of the proposer, whatever the session, the
//! model, the summary, the count and the strategy.

use vstd::prelude::*;

use crate::json::{has_key, str_at, str_or, JsonV};
use crate::model::{
    depth_is, hier_is_time, hierarchies, hierarchy_levels, level_entries, level_entry, level_named, level_touched,
    levels_of, levels_upto, touched_entry,
    spec_all_levels, spec_child_level, spec_first_time_hierarchy, spec_unvisited, text_is,
    unvisited_of, LevelV,
};
use crate::mqo::{dim_v, dims_v, op_v, lemma_mqo_fields, lemma_mqo_validates, measure_refs_v, mqo_v};
use crate::proposer::{
    drill_dims, drill_draft, drill_options, drill_target, has_hierarchy, non_time, pivot_candidates, pivot_dims,
    ranked, spec_compare,
    spec_drafts, spec_drill, spec_effective_strategy, spec_pivot, spec_propose, unvisited_drafts,
    Draft,
};
use crate::seqs::{
    first_index, lemma_first_index, lemma_first_index_is, lemma_somes_origin,
    lemma_somes_map, lemma_somes_origin_ordered, map_options, somes, trunc,
};
use crate::session::{
    spec_last_dimensions, spec_last_measures, spec_last_model_name,
    spec_touched,
};
use crate::types::{strategy_name, Strategy};
use crate::validate::{spec_validate, ValidationError};

verus! {

/// Whether draft `d` is a query on model `mn` with measures `ms`.
pub open spec fn built_on(d: Draft, mn: Seq<char>, ms: Seq<Seq<char>>) -> bool {
    exists|ds: Seq<(Seq<char>, Seq<char>)>, ti: Seq<JsonV>| d.mqo == #[trigger] mqo_v(mn, ms, ds, ti)
}

/// The ranked, truncated proposals are the drafts, in order.
pub proof fn lemma_ranked_trunc(drafts: Seq<Draft>, count: nat)
    ensures
        ranked(trunc(drafts, count)).len() <= drafts.len(),
        ranked(trunc(drafts, count)).len() <= count,
        forall|i: int|
            0 <= i < ranked(trunc(drafts, count)).len() ==> {
                let p = #[trigger] ranked(trunc(drafts, count))[i];
                &&& p.rank == i + 1
                &&& p.strategy == drafts[i].strategy
                &&& p.rationale == drafts[i].rationale
                &&& p.mqo == drafts[i].mqo
            },
{
}

/// Every drill draft is a query on the model and the measures of the last
/// MQO, which names both.
proof fn lemma_drill_shape(session: JsonV, model: JsonV, count: nat)
    ensures
        forall|i: int|
            0 <= i < spec_drill(session, model, count).len() ==> {
                let d = #[trigger] spec_drill(session, model, count)[i];
                &&& built_on(d, spec_last_model_name(session), spec_last_measures(session))
                &&& d.strategy == "drill"@
            },
        spec_drill(session, model, count).len() > 0 ==> spec_last_model_name(session).len() > 0
            && spec_last_measures(session).len() > 0,
{
    let ms = spec_last_measures(session);
    let mn = spec_last_model_name(session);
    if ms.len() > 0 && mn.len() > 0 {
        let opts = drill_options(session, model);
        let all = somes(opts);
        let first = trunc(all, count);
        if first.len() > 0 {
            assert forall|i: int| 0 <= i < first.len() implies {
                &&& built_on(#[trigger] first[i], mn, ms)
                &&& first[i].strategy == "drill"@
            } by {
                lemma_somes_origin(opts, i);
                let j = choose|j: int| i <= j < opts.len() && opts[j] == Some(all[i]);
                let ds = crate::session::spec_last_dimensions(session);
                let name = drill_target(model, crate::session::spec_touched(session), ds[j])->0;
                assert(first[i].mqo == mqo_v(mn, ms, drill_dims(ds, ds[j], name), Seq::empty()));
            }
        } else {
            let ud = unvisited_drafts(session, model, count);
            assert forall|i: int| 0 <= i < ud.len() implies {
                &&& built_on(#[trigger] ud[i], mn, ms)
                &&& ud[i].strategy == "drill"@
            } by {
                let u = trunc(
                    crate::model::spec_unvisited(model, crate::session::spec_touched(session)),
                    count,
                );
                assert(ud[i].mqo == mqo_v(mn, ms, seq![(u[i].hierarchy, u[i].name)], Seq::empty()));
            }
        }
    }
}

/// Every compare draft is a query on the model and the measures of the
/// last MQO, which names both.
proof fn lemma_compare_shape(session: JsonV, model: JsonV, count: nat)
    ensures
        forall|i: int|
            0 <= i < spec_compare(session, model, count).len() ==> {
                let d = #[trigger] spec_compare(session, model, count)[i];
                &&& built_on(d, spec_last_model_name(session), spec_last_measures(session))
                &&& d.strategy == "compare"@
            },
        spec_compare(session, model, count).len() > 0 ==> spec_last_model_name(session).len() > 0
            && spec_last_measures(session).len() > 0,
{
    let ms = spec_last_measures(session);
    let mn = spec_last_model_name(session);
    let ds = crate::session::spec_last_dimensions(session);
    let c = spec_compare(session, model, count);
    if ms.len() > 0 && mn.len() > 0 {
        if let Some(th) = crate::model::spec_first_time_hierarchy(model) {
            let tl = crate::json::str_or(crate::model::spec_coarsest_level(model, th), "Year"@);
            assert forall|i: int| 0 <= i < c.len() implies {
                &&& built_on(#[trigger] c[i], mn, ms)
                &&& c[i].strategy == "compare"@
            } by {
                if i == 0 {
                    assert(c[i].mqo == mqo_v(mn, ms, ds, seq![crate::mqo::op_v("prior_period"@)]));
                } else {
                    assert(c[i].mqo == mqo_v(
                        mn,
                        ms,
                        ds.push((th, tl)),
                        seq![crate::mqo::op_v("yoy"@)],
                    ));
                }
            }
        }
    }
}

/// Every pivot draft is a query on the model and the measures of the last
/// MQO, which names both.
proof fn lemma_pivot_shape(session: JsonV, model: JsonV, count: nat)
    ensures
        forall|i: int|
            0 <= i < spec_pivot(session, model, count).len() ==> {
                let d = #[trigger] spec_pivot(session, model, count)[i];
                &&& built_on(d, spec_last_model_name(session), spec_last_measures(session))
                &&& d.strategy == "pivot"@
            },
        spec_pivot(session, model, count).len() > 0 ==> spec_last_model_name(session).len() > 0
            && spec_last_measures(session).len() > 0,
{
    let ms = spec_last_measures(session);
    let mn = spec_last_model_name(session);
    let ds = crate::session::spec_last_dimensions(session);
    let p = spec_pivot(session, model, count);
    if ms.len() > 0 && mn.len() > 0 {
        let c = trunc(pivot_candidates(session, model), count);
        assert forall|i: int| 0 <= i < p.len() implies {
            &&& built_on(#[trigger] p[i], mn, ms)
            &&& p[i].strategy == "pivot"@
        } by {
            assert(p[i].mqo == mqo_v(mn, ms, pivot_dims(ds, c[i]), Seq::empty()));
        }
    }
}

/// The drafts of the strategy that runs are queries on the model and the
/// measures of the last MQO, and carry the name of that strategy.
pub(crate) proof fn lemma_drafts_shape(
    session: JsonV,
    model: JsonV,
    summary: JsonV,
    count: nat,
    strategy: Strategy,
)
    ensures
        spec_effective_strategy(session, model, summary, strategy) != Strategy::Auto,
        forall|i: int|
            0 <= i < spec_drafts(session, model, summary, count, strategy).len() ==> {
                let d = #[trigger] spec_drafts(session, model, summary, count, strategy)[i];
                &&& built_on(d, spec_last_model_name(session), spec_last_measures(session))
                &&& d.strategy == strategy_name(
                    spec_effective_strategy(session, model, summary, strategy),
                )
            },
        spec_drafts(session, model, summary, count, strategy).len() > 0 ==> spec_last_model_name(
            session,
        ).len() > 0 && spec_last_measures(session).len() > 0,
{
    lemma_drill_shape(session, model, count);
    lemma_compare_shape(session, model, count);
    lemma_pivot_shape(session, model, count);
}

/// Every proposed query passes structural validation: candidates that
/// would fail it never reach the output.
pub proof fn law_proposals_validate(
    session: JsonV,
    model: JsonV,
    summary: JsonV,
    count: nat,
    strategy: Strategy,
)
    ensures
        forall|i: int|
            0 <= i < spec_propose(session, model, summary, count, strategy).proposals.len()
                ==> spec_validate(
                #[trigger] spec_propose(session, model, summary, count, strategy).proposals[i].mqo,
            ) == Ok::<(), ValidationError>(()),
{
    let drafts = spec_drafts(session, model, summary, count, strategy);
    let ps = spec_propose(session, model, summary, count, strategy).proposals;
    lemma_ranked_trunc(drafts, count);
    lemma_drafts_shape(session, model, summary, count, strategy);
    assert forall|i: int| 0 <= i < ps.len() implies spec_validate(#[trigger] ps[i].mqo) == Ok::<
        (),
        ValidationError,
    >(()) by {
        let d = drafts[i];
        assert(built_on(d, spec_last_model_name(session), spec_last_measures(session)));
        let (ds, ti) = choose|ds: Seq<(Seq<char>, Seq<char>)>, ti: Seq<JsonV>|
            d.mqo == #[trigger] mqo_v(spec_last_model_name(session), spec_last_measures(session), ds, ti);
        lemma_mqo_validates(spec_last_model_name(session), spec_last_measures(session), ds, ti);
    }
}

/// There are at most `count` proposals, ranked 1, 2, ... without gaps, and
/// each carries the name of the strategy that ran: the requested one, or
/// for `auto` the one it selected (never `auto` itself).
pub proof fn law_count_rank_strategy(
    session: JsonV,
    model: JsonV,
    summary: JsonV,
    count: nat,
    strategy: Strategy,
)
    ensures
        spec_propose(session, model, summary, count, strategy).proposals.len() <= count,
        spec_effective_strategy(session, model, summary, strategy) != Strategy::Auto,
        strategy != Strategy::Auto ==> spec_effective_strategy(session, model, summary, strategy)
            == strategy,
        forall|i: int|
            0 <= i < spec_propose(session, model, summary, count, strategy).proposals.len() ==> {
                let p = #[trigger] spec_propose(session, model, summary, count, strategy).proposals[i];
                &&& p.rank == i + 1
                &&& p.strategy == strategy_name(
                    spec_effective_strategy(session, model, summary, strategy),
                )
            },
{
    let drafts = spec_drafts(session, model, summary, count, strategy);
    lemma_ranked_trunc(drafts, count);
    lemma_drafts_shape(session, model, summary, count, strategy);
}

/// Every proposed query is on the model of the last MQO and keeps its
/// measures.
pub proof fn law_model_and_measures_kept(
    session: JsonV,
    model: JsonV,
    summary: JsonV,
    count: nat,
    strategy: Strategy,
)
    ensures
        forall|i: int|
            0 <= i < spec_propose(session, model, summary, count, strategy).proposals.len() ==> {
                let q = (#[trigger] spec_propose(session, model, summary, count, strategy).proposals[i]).mqo;
                &&& q.at("model"@) == JsonV::Str(spec_last_model_name(session))
                &&& q.at("measures"@) == JsonV::Array(measure_refs_v(spec_last_measures(session)))
            },
{
    let drafts = spec_drafts(session, model, summary, count, strategy);
    let ps = spec_propose(session, model, summary, count, strategy).proposals;
    let mn = spec_last_model_name(session);
    let ms = spec_last_measures(session);
    lemma_ranked_trunc(drafts, count);
    lemma_drafts_shape(session, model, summary, count, strategy);
    assert forall|i: int| 0 <= i < ps.len() implies {
        &&& (#[trigger] ps[i]).mqo.at("model"@) == JsonV::Str(mn)
        &&& ps[i].mqo.at("measures"@) == JsonV::Array(measure_refs_v(ms))
    } by {
        let d = drafts[i];
        assert(built_on(d, mn, ms));
        let (ds, ti) = choose|ds: Seq<(Seq<char>, Seq<char>)>, ti: Seq<JsonV>|
            d.mqo == #[trigger] mqo_v(mn, ms, ds, ti);
        lemma_mqo_fields(mn, ms, ds, ti);
    }
}

// ── Touched levels are not proposed again ─────────────────────────────────

/// Whether level entry `entry` of hierarchy `hier` is a level named `n` of
/// a hierarchy whose unique name is `h`, with a unique name not in `touched`.
pub open spec fn fresh_entry(
    hier: JsonV,
    entry: JsonV,
    touched: Set<Seq<char>>,
    h: Seq<char>,
    n: Seq<char>,
) -> bool {
    &&& str_at(hier, "unique_name"@) == h
    &&& str_at(entry, "name"@) == n
    &&& !touched.contains(str_at(entry, "unique_name"@))
}

/// Whether the model has, in a hierarchy whose unique name is `h`, a level
/// named `n` whose unique name is not in `touched`.
pub open spec fn offers_fresh_level(
    model: JsonV,
    touched: Set<Seq<char>>,
    h: Seq<char>,
    n: Seq<char>,
) -> bool {
    exists|a: int, b: int|
        0 <= a < hierarchies(model).len() && 0 <= b < level_entries(hierarchies(model)[a]).len()
            && #[trigger] fresh_entry(
            hierarchies(model)[a],
            level_entries(hierarchies(model)[a])[b],
            touched,
            h,
            n,
        )
}

/// Whether some dimension of query `q` is at a level that the model offers
/// and that is not in `touched`.
pub open spec fn adds_fresh_level(model: JsonV, touched: Set<Seq<char>>, q: JsonV) -> bool {
    exists|k: int|
        0 <= k < q.at("dimensions"@).items().len() && offers_fresh_level(
            model,
            touched,
            str_at(#[trigger] q.at("dimensions"@).items()[k], "hierarchy"@),
            str_at(q.at("dimensions"@).items()[k], "level"@),
        )
}

/// Whether every level entry of the model has a unique name in `touched`.
pub open spec fn all_levels_touched(model: JsonV, touched: Set<Seq<char>>) -> bool {
    forall|a: int, b: int|
        0 <= a < hierarchies(model).len() && 0 <= b < level_entries(hierarchies(model)[a]).len()
            ==> touched.contains(
            str_at(#[trigger] level_entries(hierarchies(model)[a])[b], "unique_name"@),
        )
}

/// A level of `levels_of` is described by one of the entries.
proof fn lemma_levels_of_origin(hier: Seq<char>, is_time: bool, ls: Seq<JsonV>, k: int)
    requires
        0 <= k < levels_of(hier, is_time, ls).len(),
    ensures
        exists|b: int|
            0 <= b < ls.len() && #[trigger] level_entry(hier, is_time, ls[b]) == levels_of(
                hier,
                is_time,
                ls,
            )[k],
    decreases ls.len(),
{
    let init = levels_of(hier, is_time, ls.drop_last());
    if k < init.len() {
        lemma_levels_of_origin(hier, is_time, ls.drop_last(), k);
        let b = choose|b: int|
            0 <= b < ls.drop_last().len() && #[trigger] level_entry(hier, is_time, ls.drop_last()[b])
                == init[k];
        assert(ls.drop_last()[b] == ls[b]);
    } else {
        assert(level_entry(hier, is_time, ls[ls.len() - 1]) == levels_of(hier, is_time, ls)[k]);
    }
}

/// A level of the model is described by a level entry of one of its
/// hierarchies.
pub(crate) proof fn lemma_levels_upto_origin(hs: Seq<JsonV>, k: int)
    requires
        0 <= k < levels_upto(hs).len(),
    ensures
        exists|a: int, b: int|
            0 <= a < hs.len() && 0 <= b < level_entries(hs[a]).len() && #[trigger] level_entry(
                str_at(hs[a], "unique_name"@),
                hier_is_time(hs[a]),
                level_entries(hs[a])[b],
            ) == levels_upto(hs)[k],
    decreases hs.len(),
{
    let init = levels_upto(hs.drop_last());
    if k < init.len() {
        lemma_levels_upto_origin(hs.drop_last(), k);
        let (a, b) = choose|a: int, b: int|
            0 <= a < hs.drop_last().len() && 0 <= b < level_entries(hs.drop_last()[a]).len()
                && #[trigger] level_entry(
                str_at(hs.drop_last()[a], "unique_name"@),
                hier_is_time(hs.drop_last()[a]),
                level_entries(hs.drop_last()[a])[b],
            ) == init[k];
        assert(hs.drop_last()[a] == hs[a]);
    } else {
        let last = hs[hs.len() - 1];
        lemma_levels_of_origin(
            str_at(last, "unique_name"@),
            hier_is_time(last),
            level_entries(last),
            k - init.len(),
        );
    }
}

/// An unvisited level is one of the levels, and is not touched.
pub(crate) proof fn lemma_unvisited_origin(levels: Seq<LevelV>, touched: Set<Seq<char>>, k: int)
    requires
        0 <= k < unvisited_of(levels, touched).len(),
    ensures
        exists|j: int| 0 <= j < levels.len() && levels[j] == unvisited_of(levels, touched)[k],
        !touched.contains(unvisited_of(levels, touched)[k].unique_name),
    decreases levels.len(),
{
    let init = levels.drop_last();
    if k < unvisited_of(init, touched).len() {
        lemma_unvisited_origin(init, touched, k);
        let j = choose|j: int| 0 <= j < init.len() && init[j] == unvisited_of(init, touched)[k];
        assert(levels[j] == init[j]);
    } else {
        assert(levels[levels.len() - 1] == unvisited_of(levels, touched)[k]);
    }
}

/// A level that is not of a time hierarchy is one of the levels.
pub(crate) proof fn lemma_non_time_origin(levels: Seq<LevelV>, k: int)
    requires
        0 <= k < non_time(levels).len(),
    ensures
        exists|j: int| 0 <= j < levels.len() && levels[j] == non_time(levels)[k],
    decreases levels.len(),
{
    let init = levels.drop_last();
    if k < non_time(init).len() {
        lemma_non_time_origin(init, k);
        let j = choose|j: int| 0 <= j < init.len() && init[j] == non_time(init)[k];
        assert(levels[j] == init[j]);
    } else {
        assert(levels[levels.len() - 1] == non_time(levels)[k]);
    }
}

/// An unvisited level of the model is a level it offers, not touched.
proof fn lemma_unvisited_fresh(model: JsonV, touched: Set<Seq<char>>, l: LevelV)
    requires
        exists|k: int|
            0 <= k < spec_unvisited(model, touched).len() && spec_unvisited(model, touched)[k] == l,
    ensures
        offers_fresh_level(model, touched, l.hierarchy, l.name),
{
    let all = spec_all_levels(model);
    let k = choose|k: int|
        0 <= k < spec_unvisited(model, touched).len() && spec_unvisited(model, touched)[k] == l;
    lemma_unvisited_origin(all, touched, k);
    let j = choose|j: int| 0 <= j < all.len() && all[j] == unvisited_of(all, touched)[k];
    lemma_levels_upto_origin(hierarchies(model), j);
    let hs = hierarchies(model);
    let (a, b) = choose|a: int, b: int|
        0 <= a < hs.len() && 0 <= b < level_entries(hs[a]).len() && #[trigger] level_entry(
            str_at(hs[a], "unique_name"@),
            hier_is_time(hs[a]),
            level_entries(hs[a])[b],
        ) == all[j];
    assert(fresh_entry(hs[a], level_entries(hs[a])[b], touched, l.hierarchy, l.name));
}

/// The two members of a dimension object.
pub(crate) proof fn lemma_dim_fields(h: Seq<char>, n: Seq<char>)
    ensures
        dim_v(h, n).at("hierarchy"@) == JsonV::Str(h),
        dim_v(h, n).at("level"@) == JsonV::Str(n),
        str_at(dim_v(h, n), "hierarchy"@) == h,
        str_at(dim_v(h, n), "level"@) == n,
{
    reveal_strlit("hierarchy");
    reveal_strlit("level");
    let es = seq![("hierarchy"@, JsonV::Str(h)), ("level"@, JsonV::Str(n))];
    assert("level"@.len() != "hierarchy"@.len());
    lemma_first_index_is(es, has_key("hierarchy"@), 0);
    lemma_first_index_is(es, has_key("level"@), 1);
}

/// A query whose dimension `k` is at a fresh level adds a fresh level.
proof fn lemma_adds_fresh(
    model: JsonV,
    touched: Set<Seq<char>>,
    mn: Seq<char>,
    ms: Seq<Seq<char>>,
    ds: Seq<(Seq<char>, Seq<char>)>,
    k: int,
)
    requires
        0 <= k < ds.len(),
        offers_fresh_level(model, touched, ds[k].0, ds[k].1),
    ensures
        adds_fresh_level(model, touched, mqo_v(mn, ms, ds, Seq::empty())),
{
    let q = mqo_v(mn, ms, ds, Seq::empty());
    lemma_mqo_fields(mn, ms, ds, Seq::empty());
    lemma_dim_fields(ds[k].0, ds[k].1);
    assert(q.at("dimensions"@).items() == dims_v(ds));
    assert(q.at("dimensions"@).items()[k] == dim_v(ds[k].0, ds[k].1));
}

/// The level a drill goes to is one the model offers, not touched.
proof fn lemma_drill_target_fresh(model: JsonV, t: Set<Seq<char>>, d: (Seq<char>, Seq<char>))
    requires
        drill_target(model, t, d) is Some,
    ensures
        offers_fresh_level(model, t, d.0, drill_target(model, t, d)->0),
{
    let name = drill_target(model, t, d)->0;
    let child = spec_child_level(model, d.0, d.1)->0;
    let hs = hierarchies(model);
    let a = first_index(hs, text_is("unique_name"@, d.0))->0;
    lemma_first_index(hs, text_is("unique_name"@, d.0));
    let ls = hs[a].at("levels"@).as_array()->0;
    let ci = first_index(ls, level_named(d.1))->0;
    let dp = ls[ci].at("depth"@).as_u64()->0;
    let kk = first_index(ls, depth_is((dp + 1) as u64))->0;
    lemma_first_index(ls, depth_is((dp + 1) as u64));
    assert(child == ls[kk]);
    assert(fresh_entry(hs[a], level_entries(hs[a])[kk], t, d.0, name));
}

/// Every drill adds a level that the session has not touched.
proof fn lemma_drill_fresh(session: JsonV, model: JsonV, count: nat)
    ensures
        forall|i: int|
            0 <= i < spec_drill(session, model, count).len() ==> adds_fresh_level(
                model,
                spec_touched(session),
                (#[trigger] spec_drill(session, model, count)[i]).mqo,
            ),
{
    let ms = spec_last_measures(session);
    let mn = spec_last_model_name(session);
    let ds = spec_last_dimensions(session);
    let t = spec_touched(session);
    if ms.len() > 0 && mn.len() > 0 {
        let opts = drill_options(session, model);
        let all = somes(opts);
        let first = trunc(all, count);
        if first.len() > 0 {
            assert forall|i: int| 0 <= i < first.len() implies adds_fresh_level(
                model,
                t,
                (#[trigger] first[i]).mqo,
            ) by {
                lemma_somes_origin(opts, i);
                let j = choose|j: int| i <= j < opts.len() && opts[j] == Some(all[i]);
                let name = drill_target(model, t, ds[j])->0;
                lemma_drill_target_fresh(model, t, ds[j]);
                let nd = drill_dims(ds, ds[j], name);
                assert(nd[j] == (ds[j].0, name));
                lemma_adds_fresh(model, t, mn, ms, nd, j);
            }
        } else {
            let ud = unvisited_drafts(session, model, count);
            assert forall|i: int| 0 <= i < ud.len() implies adds_fresh_level(
                model,
                t,
                (#[trigger] ud[i]).mqo,
            ) by {
                let u = trunc(spec_unvisited(model, t), count);
                assert(spec_unvisited(model, t)[i] == u[i]);
                lemma_unvisited_fresh(model, t, u[i]);
                let one = seq![(u[i].hierarchy, u[i].name)];
                lemma_adds_fresh(model, t, mn, ms, one, 0);
            }
        }
    }
}

/// Every pivot adds a level that the session has not touched.
proof fn lemma_pivot_fresh(session: JsonV, model: JsonV, count: nat)
    ensures
        forall|i: int|
            0 <= i < spec_pivot(session, model, count).len() ==> adds_fresh_level(
                model,
                spec_touched(session),
                (#[trigger] spec_pivot(session, model, count)[i]).mqo,
            ),
{
    let ms = spec_last_measures(session);
    let mn = spec_last_model_name(session);
    let ds = spec_last_dimensions(session);
    let t = spec_touched(session);
    let p = spec_pivot(session, model, count);
    if ms.len() > 0 && mn.len() > 0 {
        let cands = pivot_candidates(session, model);
        let c = trunc(cands, count);
        assert forall|i: int| 0 <= i < p.len() implies adds_fresh_level(
            model,
            t,
            (#[trigger] p[i]).mqo,
        ) by {
            let l = c[i];
            assert(cands[i] == l);
            lemma_non_time_origin(spec_unvisited(model, t), i);
            lemma_unvisited_fresh(model, t, l);
            let nd = pivot_dims(ds, l);
            if has_hierarchy(ds, l.hierarchy) {
                let k = choose|k: int| 0 <= k < ds.len() && (#[trigger] ds[k]).0 == l.hierarchy;
                assert(nd[k] == (l.hierarchy, l.name));
                lemma_adds_fresh(model, t, mn, ms, nd, k);
            } else {
                assert(nd[ds.len() as int] == (l.hierarchy, l.name));
                lemma_adds_fresh(model, t, mn, ms, nd, ds.len() as int);
            }
        }
    }
}

/// Every drill or pivot proposal puts a dimension at a level of the model
/// whose unique name the session has not touched.
pub proof fn law_drill_and_pivot_add_untouched_level(
    session: JsonV,
    model: JsonV,
    summary: JsonV,
    count: nat,
    strategy: Strategy,
)
    requires
        spec_effective_strategy(session, model, summary, strategy) == Strategy::Drill
            || spec_effective_strategy(session, model, summary, strategy) == Strategy::Pivot,
    ensures
        forall|i: int|
            0 <= i < spec_propose(session, model, summary, count, strategy).proposals.len()
                ==> adds_fresh_level(
                model,
                spec_touched(session),
                (#[trigger] spec_propose(session, model, summary, count, strategy).proposals[i]).mqo,
            ),
{
    let drafts = spec_drafts(session, model, summary, count, strategy);
    lemma_ranked_trunc(drafts, count);
    lemma_drill_fresh(session, model, count);
    lemma_pivot_fresh(session, model, count);
}

/// A session that has touched every level of the model gets no proposal,
/// whatever the strategy: the proposer does not invent a move.
pub proof fn law_exhausted_session_gets_nothing(
    session: JsonV,
    model: JsonV,
    summary: JsonV,
    count: nat,
    strategy: Strategy,
)
    requires
        all_levels_touched(model, spec_touched(session)),
    ensures
        spec_propose(session, model, summary, count, strategy).proposals.len() == 0,
{
    let t = spec_touched(session);
    let hs = hierarchies(model);
    if spec_unvisited(model, t).len() > 0 {
        let l = spec_unvisited(model, t)[0];
        lemma_unvisited_fresh(model, t, l);
        let (a, b) = choose|a: int, b: int|
            0 <= a < hs.len() && 0 <= b < level_entries(hs[a]).len() && #[trigger] fresh_entry(
                hs[a],
                level_entries(hs[a])[b],
                t,
                l.hierarchy,
                l.name,
            );
        assert(t.contains(str_at(level_entries(hs[a])[b], "unique_name"@)));
    }
}

// ── Compare ───────────────────────────────────────────────────────────────

/// Compare proposals compare over time: the first adds a `prior_period`
/// operation, the second a `yoy` one, and there are no others.
pub proof fn law_compare_adds_time_intelligence(
    session: JsonV,
    model: JsonV,
    summary: JsonV,
    count: nat,
    strategy: Strategy,
)
    requires
        spec_effective_strategy(session, model, summary, strategy) == Strategy::Compare,
    ensures
        spec_propose(session, model, summary, count, strategy).proposals.len() <= 2,
        forall|i: int|
            0 <= i < spec_propose(session, model, summary, count, strategy).proposals.len()
                ==> (#[trigger] spec_propose(session, model, summary, count, strategy).proposals[i]).mqo.at(
                "time_intelligence"@,
            ) == JsonV::Array(
                seq![op_v(if i == 0 { "prior_period"@ } else { "yoy"@ })],
            ),
{
    let drafts = spec_drafts(session, model, summary, count, strategy);
    let ps = spec_propose(session, model, summary, count, strategy).proposals;
    lemma_ranked_trunc(drafts, count);
    let ms = spec_last_measures(session);
    let mn = spec_last_model_name(session);
    let ds = spec_last_dimensions(session);
    assert(drafts == spec_compare(session, model, count));
    if ms.len() > 0 && mn.len() > 0 {
        if let Some(th) = spec_first_time_hierarchy(model) {
            let tl = crate::json::str_or(crate::model::spec_coarsest_level(model, th), "Year"@);
            lemma_mqo_fields(mn, ms, ds, seq![op_v("prior_period"@)]);
            lemma_mqo_fields(mn, ms, ds.push((th, tl)), seq![op_v("yoy"@)]);
        }
    }
}

// ── No proposal adds a touched level ──────────────────────────────────────

/// The (hierarchy, level) texts of a dimension object.
pub open spec fn dim_pair(d: JsonV) -> (Seq<char>, Seq<char>) {
    (str_at(d, "hierarchy"@), str_at(d, "level"@))
}

/// Whether level entry `entry` of hierarchy `hier` is named `n`, in a
/// hierarchy whose unique name is `h`.
pub open spec fn named_entry(hier: JsonV, entry: JsonV, h: Seq<char>, n: Seq<char>) -> bool {
    &&& str_at(hier, "unique_name"@) == h
    &&& str_at(entry, "name"@) == n
}

/// Whether the model has a level named `n` in a hierarchy whose unique
/// name is `h`.
pub open spec fn names_level(model: JsonV, h: Seq<char>, n: Seq<char>) -> bool {
    exists|a: int, b: int|
        0 <= a < hierarchies(model).len() && 0 <= b < level_entries(hierarchies(model)[a]).len()
            && #[trigger] named_entry(
            hierarchies(model)[a],
            level_entries(hierarchies(model)[a])[b],
            h,
            n,
        )
}

/// Whether every dimension that query `q` has beyond the dimensions `last`
/// is either no level of the model, or a level of the model whose unique
/// name is not in `touched`.
pub open spec fn adds_no_touched_level(
    model: JsonV,
    touched: Set<Seq<char>>,
    last: Seq<(Seq<char>, Seq<char>)>,
    q: JsonV,
) -> bool {
    forall|k: int|
        0 <= k < q.at("dimensions"@).items().len() && !last.contains(
            dim_pair(#[trigger] q.at("dimensions"@).items()[k]),
        ) ==> offers_fresh_level(
            model,
            touched,
            dim_pair(q.at("dimensions"@).items()[k]).0,
            dim_pair(q.at("dimensions"@).items()[k]).1,
        ) || !names_level(
            model,
            dim_pair(q.at("dimensions"@).items()[k]).0,
            dim_pair(q.at("dimensions"@).items()[k]).1,
        )
}

/// Whether a dimension is kept from `last`, or is a level the model offers
/// untouched, or is no level of the model.
pub open spec fn dim_ok(
    model: JsonV,
    touched: Set<Seq<char>>,
    last: Seq<(Seq<char>, Seq<char>)>,
    d: (Seq<char>, Seq<char>),
) -> bool {
    last.contains(d) || offers_fresh_level(model, touched, d.0, d.1) || !names_level(model, d.0, d.1)
}

/// A query built on dimensions that are each kept, untouched, or no level
/// adds no touched level.
proof fn lemma_adds_no_touched(
    model: JsonV,
    touched: Set<Seq<char>>,
    last: Seq<(Seq<char>, Seq<char>)>,
    mn: Seq<char>,
    ms: Seq<Seq<char>>,
    ds: Seq<(Seq<char>, Seq<char>)>,
    ti: Seq<JsonV>,
)
    requires
        forall|k: int| 0 <= k < ds.len() ==> dim_ok(model, touched, last, #[trigger] ds[k]),
    ensures
        adds_no_touched_level(model, touched, last, mqo_v(mn, ms, ds, ti)),
{
    let q = mqo_v(mn, ms, ds, ti);
    lemma_mqo_fields(mn, ms, ds, ti);
    assert(q.at("dimensions"@).items() == dims_v(ds));
    assert forall|k: int| 0 <= k < dims_v(ds).len() implies dim_pair(#[trigger] dims_v(ds)[k]) == ds[k] by {
        lemma_dim_fields(ds[k].0, ds[k].1);
    }
    assert forall|k: int|
        0 <= k < q.at("dimensions"@).items().len() && !last.contains(
            dim_pair(#[trigger] q.at("dimensions"@).items()[k]),
        ) implies offers_fresh_level(
            model,
            touched,
            dim_pair(q.at("dimensions"@).items()[k]).0,
            dim_pair(q.at("dimensions"@).items()[k]).1,
        ) || !names_level(
            model,
            dim_pair(q.at("dimensions"@).items()[k]).0,
            dim_pair(q.at("dimensions"@).items()[k]).1,
        ) by {
        assert(dim_pair(dims_v(ds)[k]) == ds[k]);
        assert(dim_ok(model, touched, last, ds[k]));
    }
}

/// Each dimension of the last MQO is kept.
proof fn lemma_last_dims_ok(
    model: JsonV,
    touched: Set<Seq<char>>,
    last: Seq<(Seq<char>, Seq<char>)>,
)
    ensures
        forall|k: int| 0 <= k < last.len() ==> dim_ok(model, touched, last, #[trigger] last[k]),
{
    assert forall|k: int| 0 <= k < last.len() implies dim_ok(model, touched, last, #[trigger] last[k]) by {
        assert(last.contains(last[k]));
    }
}

/// No drill adds a touched level.
proof fn lemma_drill_no_touched(session: JsonV, model: JsonV, count: nat)
    ensures
        forall|i: int|
            0 <= i < spec_drill(session, model, count).len() ==> adds_no_touched_level(
                model,
                spec_touched(session),
                spec_last_dimensions(session),
                (#[trigger] spec_drill(session, model, count)[i]).mqo,
            ),
{
    let ms = spec_last_measures(session);
    let mn = spec_last_model_name(session);
    let ds = spec_last_dimensions(session);
    let t = spec_touched(session);
    lemma_last_dims_ok(model, t, ds);
    if ms.len() > 0 && mn.len() > 0 {
        let opts = drill_options(session, model);
        let all = somes(opts);
        let first = trunc(all, count);
        if first.len() > 0 {
            assert forall|i: int| 0 <= i < first.len() implies adds_no_touched_level(
                model,
                t,
                ds,
                (#[trigger] first[i]).mqo,
            ) by {
                lemma_somes_origin(opts, i);
                let j = choose|j: int| i <= j < opts.len() && opts[j] == Some(all[i]);
                let name = drill_target(model, t, ds[j])->0;
                lemma_drill_target_fresh(model, t, ds[j]);
                let nd = drill_dims(ds, ds[j], name);
                assert forall|k: int| 0 <= k < nd.len() implies dim_ok(model, t, ds, #[trigger] nd[k]) by {
                    if ds[k] == ds[j] {
                        assert(nd[k] == (ds[j].0, name));
                    } else {
                        assert(nd[k] == ds[k]);
                        assert(dim_ok(model, t, ds, ds[k]));
                    }
                }
                lemma_adds_no_touched(model, t, ds, mn, ms, nd, Seq::empty());
            }
        } else {
            let ud = unvisited_drafts(session, model, count);
            assert forall|i: int| 0 <= i < ud.len() implies adds_no_touched_level(
                model,
                t,
                ds,
                (#[trigger] ud[i]).mqo,
            ) by {
                let u = trunc(spec_unvisited(model, t), count);
                assert(spec_unvisited(model, t)[i] == u[i]);
                lemma_unvisited_fresh(model, t, u[i]);
                let one = seq![(u[i].hierarchy, u[i].name)];
                assert(dim_ok(model, t, ds, one[0]));
                lemma_adds_no_touched(model, t, ds, mn, ms, one, Seq::empty());
            }
        }
    }
}

/// No pivot adds a touched level.
proof fn lemma_pivot_no_touched(session: JsonV, model: JsonV, count: nat)
    ensures
        forall|i: int|
            0 <= i < spec_pivot(session, model, count).len() ==> adds_no_touched_level(
                model,
                spec_touched(session),
                spec_last_dimensions(session),
                (#[trigger] spec_pivot(session, model, count)[i]).mqo,
            ),
{
    let ms = spec_last_measures(session);
    let mn = spec_last_model_name(session);
    let ds = spec_last_dimensions(session);
    let t = spec_touched(session);
    let p = spec_pivot(session, model, count);
    lemma_last_dims_ok(model, t, ds);
    if ms.len() > 0 && mn.len() > 0 {
        let cands = pivot_candidates(session, model);
        let c = trunc(cands, count);
        assert forall|i: int| 0 <= i < p.len() implies adds_no_touched_level(
            model,
            t,
            ds,
            (#[trigger] p[i]).mqo,
        ) by {
            let l = c[i];
            assert(cands[i] == l);
            lemma_non_time_origin(spec_unvisited(model, t), i);
            lemma_unvisited_fresh(model, t, l);
            let nd = pivot_dims(ds, l);
            assert forall|k: int| 0 <= k < nd.len() implies dim_ok(model, t, ds, #[trigger] nd[k]) by {
                if has_hierarchy(ds, l.hierarchy) {
                    if ds[k].0 == l.hierarchy {
                        assert(nd[k] == (l.hierarchy, l.name));
                    } else {
                        assert(nd[k] == ds[k]);
                        assert(dim_ok(model, t, ds, ds[k]));
                    }
                } else if k < ds.len() {
                    assert(nd[k] == ds[k]);
                    assert(dim_ok(model, t, ds, ds[k]));
                } else {
                    assert(nd[k] == (l.hierarchy, l.name));
                }
            }
            lemma_adds_no_touched(model, t, ds, mn, ms, nd, Seq::empty());
        }
    }
}

/// No compare proposal adds a touched level: the prior-period one adds no
/// dimension, and the year-over-year one is left out where its time level
/// has been touched.
proof fn lemma_compare_no_touched(session: JsonV, model: JsonV, count: nat)
    ensures
        forall|i: int|
            0 <= i < spec_compare(session, model, count).len() ==> adds_no_touched_level(
                model,
                spec_touched(session),
                spec_last_dimensions(session),
                (#[trigger] spec_compare(session, model, count)[i]).mqo,
            ),
{
    let ms = spec_last_measures(session);
    let mn = spec_last_model_name(session);
    let ds = spec_last_dimensions(session);
    let t = spec_touched(session);
    let c = spec_compare(session, model, count);
    lemma_last_dims_ok(model, t, ds);
    if ms.len() > 0 && mn.len() > 0 {
        if let Some(th) = spec_first_time_hierarchy(model) {
            let tl = str_or(crate::model::spec_coarsest_level(model, th), "Year"@);
            lemma_adds_no_touched(model, t, ds, mn, ms, ds, seq![op_v("prior_period"@)]);
            if !level_touched(model, t, th, tl) {
                let nd = ds.push((th, tl));
                assert forall|k: int| 0 <= k < nd.len() implies dim_ok(model, t, ds, #[trigger] nd[k]) by {
                    if k < ds.len() {
                        assert(nd[k] == ds[k]);
                        assert(dim_ok(model, t, ds, ds[k]));
                    } else {
                        assert(nd[k] == (th, tl));
                        let hs = hierarchies(model);
                        if names_level(model, th, tl) {
                            let (a, b) = choose|a: int, b: int|
                                0 <= a < hs.len() && 0 <= b < level_entries(hs[a]).len()
                                    && #[trigger] named_entry(hs[a], level_entries(hs[a])[b], th, tl);
                            assert(!touched_entry(hs[a], level_entries(hs[a])[b], t, th, tl));
                            assert(fresh_entry(hs[a], level_entries(hs[a])[b], t, th, tl));
                        }
                    }
                }
                lemma_adds_no_touched(model, t, ds, mn, ms, nd, seq![op_v("yoy"@)]);
            }
        }
    }
}

/// Levels already in the session's touched entities are never proposed
/// again, whatever the strategy: every dimension that a proposal has beyond
/// those of the last MQO is either a level of the model whose unique name
/// the session has not touched, or no level of the model at all.
pub proof fn law_touched_levels_not_proposed(
    session: JsonV,
    model: JsonV,
    summary: JsonV,
    count: nat,
    strategy: Strategy,
)
    ensures
        forall|i: int|
            0 <= i < spec_propose(session, model, summary, count, strategy).proposals.len()
                ==> adds_no_touched_level(
                model,
                spec_touched(session),
                spec_last_dimensions(session),
                (#[trigger] spec_propose(session, model, summary, count, strategy).proposals[i]).mqo,
            ),
{
    let drafts = spec_drafts(session, model, summary, count, strategy);
    lemma_ranked_trunc(drafts, count);
    lemma_drill_no_touched(session, model, count);
    lemma_pivot_no_touched(session, model, count);
    lemma_compare_no_touched(session, model, count);
}

// ── No repeated proposals ─────────────────────────────────────────────────

/// Whether the level entries of the model have pairwise different names.
pub open spec fn level_names_distinct(model: JsonV) -> bool {
    forall|a1: int, b1: int, a2: int, b2: int|
        0 <= a1 < hierarchies(model).len() && 0 <= b1 < level_entries(hierarchies(model)[a1]).len()
            && 0 <= a2 < hierarchies(model).len() && 0 <= b2 < level_entries(
            hierarchies(model)[a2],
        ).len() && (a1 != a2 || b1 != b2) ==> str_at(
            #[trigger] level_entries(hierarchies(model)[a1])[b1],
            "name"@,
        ) != str_at(#[trigger] level_entries(hierarchies(model)[a2])[b2], "name"@)
}

/// Whether the levels have pairwise different names.
pub open spec fn names_distinct(levels: Seq<LevelV>) -> bool {
    forall|i: int, j: int|
        0 <= i < levels.len() && 0 <= j < levels.len() && i != j ==> (#[trigger] levels[i]).name
            != (#[trigger] levels[j]).name
}

/// The levels of one hierarchy have different names where its entries do.
proof fn lemma_levels_of_names_distinct(hier: Seq<char>, is_time: bool, ls: Seq<JsonV>)
    requires
        forall|b1: int, b2: int|
            0 <= b1 < ls.len() && 0 <= b2 < ls.len() && b1 != b2 ==> str_at(#[trigger] ls[b1], "name"@)
                != str_at(#[trigger] ls[b2], "name"@),
    ensures
        names_distinct(levels_of(hier, is_time, ls)),
    decreases ls.len(),
{
    if ls.len() > 0 {
        let init = ls.drop_last();
        assert forall|b1: int, b2: int|
            0 <= b1 < init.len() && 0 <= b2 < init.len() && b1 != b2 implies str_at(
                #[trigger] init[b1],
                "name"@,
            ) != str_at(#[trigger] init[b2], "name"@) by {
            assert(init[b1] == ls[b1] && init[b2] == ls[b2]);
        }
        lemma_levels_of_names_distinct(hier, is_time, init);
        let prev = levels_of(hier, is_time, init);
        let cur = levels_of(hier, is_time, ls);
        if cur.len() > prev.len() {
            assert forall|i: int| 0 <= i < prev.len() implies (#[trigger] prev[i]).name != str_at(
                ls[ls.len() - 1],
                "name"@,
            ) by {
                lemma_levels_of_origin(hier, is_time, init, i);
                let b = choose|b: int|
                    0 <= b < init.len() && #[trigger] level_entry(hier, is_time, init[b]) == prev[i];
                assert(init[b] == ls[b]);
            }
            assert forall|i: int, j: int|
                0 <= i < cur.len() && 0 <= j < cur.len() && i != j implies (#[trigger] cur[i]).name
                != (#[trigger] cur[j]).name by {
                if i < prev.len() && j < prev.len() {
                    assert(cur[i] == prev[i] && cur[j] == prev[j]);
                } else if i < prev.len() {
                    assert(cur[i] == prev[i]);
                } else {
                    assert(cur[j] == prev[j]);
                }
            }
        } else {
            assert(cur == prev);
        }
    }
}

/// The levels of the model have different names where its entries do.
proof fn lemma_levels_upto_names_distinct(hs: Seq<JsonV>)
    requires
        forall|a1: int, b1: int, a2: int, b2: int|
            0 <= a1 < hs.len() && 0 <= b1 < level_entries(hs[a1]).len() && 0 <= a2 < hs.len() && 0
                <= b2 < level_entries(hs[a2]).len() && (a1 != a2 || b1 != b2) ==> str_at(
                #[trigger] level_entries(hs[a1])[b1],
                "name"@,
            ) != str_at(#[trigger] level_entries(hs[a2])[b2], "name"@),
    ensures
        names_distinct(levels_upto(hs)),
    decreases hs.len(),
{
    if hs.len() > 0 {
        let init = hs.drop_last();
        let last = hs[hs.len() - 1];
        let le = level_entries(last);
        assert forall|a1: int, b1: int, a2: int, b2: int|
            0 <= a1 < init.len() && 0 <= b1 < level_entries(init[a1]).len() && 0 <= a2 < init.len()
                && 0 <= b2 < level_entries(init[a2]).len() && (a1 != a2 || b1 != b2) implies str_at(
                #[trigger] level_entries(init[a1])[b1],
                "name"@,
            ) != str_at(#[trigger] level_entries(init[a2])[b2], "name"@) by {
            assert(init[a1] == hs[a1] && init[a2] == hs[a2]);
        }
        lemma_levels_upto_names_distinct(init);
        assert forall|b1: int, b2: int|
            0 <= b1 < le.len() && 0 <= b2 < le.len() && b1 != b2 implies str_at(#[trigger] le[b1], "name"@)
                != str_at(#[trigger] le[b2], "name"@) by {
            assert(level_entries(hs[hs.len() - 1])[b1] == le[b1]);
            assert(level_entries(hs[hs.len() - 1])[b2] == le[b2]);
        }
        lemma_levels_of_names_distinct(str_at(last, "unique_name"@), hier_is_time(last), le);
        let pre = levels_upto(init);
        let tail = hierarchy_levels(last);
        let all = levels_upto(hs);
        assert(all == pre + tail);
        assert forall|i: int, j: int| 0 <= i < pre.len() && 0 <= j < tail.len() implies (
        #[trigger] pre[i]).name != (#[trigger] tail[j]).name by {
            lemma_levels_upto_origin(init, i);
            let (a, b) = choose|a: int, b: int|
                0 <= a < init.len() && 0 <= b < level_entries(init[a]).len() && #[trigger] level_entry(
                    str_at(init[a], "unique_name"@),
                    hier_is_time(init[a]),
                    level_entries(init[a])[b],
                ) == pre[i];
            lemma_levels_of_origin(str_at(last, "unique_name"@), hier_is_time(last), le, j);
            let b2 = choose|b2: int|
                0 <= b2 < le.len() && #[trigger] level_entry(
                    str_at(last, "unique_name"@),
                    hier_is_time(last),
                    le[b2],
                ) == tail[j];
            assert(init[a] == hs[a]);
            assert(level_entries(hs[a])[b] == level_entries(init[a])[b]);
            assert(level_entries(hs[hs.len() - 1])[b2] == le[b2]);
        }
        assert forall|i: int, j: int|
            0 <= i < all.len() && 0 <= j < all.len() && i != j implies (#[trigger] all[i]).name
            != (#[trigger] all[j]).name by {
            if i < pre.len() && j < pre.len() {
                assert(all[i] == pre[i] && all[j] == pre[j]);
            } else if i < pre.len() {
                assert(all[i] == pre[i] && all[j] == tail[j - pre.len()]);
            } else if j < pre.len() {
                assert(all[j] == pre[j] && all[i] == tail[i - pre.len()]);
            } else {
                assert(all[i] == tail[i - pre.len()] && all[j] == tail[j - pre.len()]);
            }
        }
    }
}

/// Leaving out touched levels keeps names different.
proof fn lemma_unvisited_names_distinct(levels: Seq<LevelV>, touched: Set<Seq<char>>)
    requires
        names_distinct(levels),
    ensures
        names_distinct(unvisited_of(levels, touched)),
    decreases levels.len(),
{
    if levels.len() > 0 {
        let init = levels.drop_last();
        assert forall|i: int, j: int|
            0 <= i < init.len() && 0 <= j < init.len() && i != j implies (#[trigger] init[i]).name
            != (#[trigger] init[j]).name by {
            assert(init[i] == levels[i] && init[j] == levels[j]);
        }
        lemma_unvisited_names_distinct(init, touched);
        let prev = unvisited_of(init, touched);
        let cur = unvisited_of(levels, touched);
        if !touched.contains(levels.last().unique_name) {
            assert forall|i: int| 0 <= i < prev.len() implies (#[trigger] prev[i]).name
                != levels.last().name by {
                lemma_unvisited_origin(init, touched, i);
                let j = choose|j: int| 0 <= j < init.len() && init[j] == prev[i];
                assert(levels[j] == init[j]);
            }
            assert forall|i: int, j: int|
                0 <= i < cur.len() && 0 <= j < cur.len() && i != j implies (#[trigger] cur[i]).name
                != (#[trigger] cur[j]).name by {
                if i < prev.len() && j < prev.len() {
                    assert(cur[i] == prev[i] && cur[j] == prev[j]);
                } else if i < prev.len() {
                    assert(cur[i] == prev[i]);
                } else {
                    assert(cur[j] == prev[j]);
                }
            }
        }
    }
}

/// Leaving out time levels keeps names different.
proof fn lemma_non_time_names_distinct(levels: Seq<LevelV>)
    requires
        names_distinct(levels),
    ensures
        names_distinct(non_time(levels)),
    decreases levels.len(),
{
    if levels.len() > 0 {
        let init = levels.drop_last();
        assert forall|i: int, j: int|
            0 <= i < init.len() && 0 <= j < init.len() && i != j implies (#[trigger] init[i]).name
            != (#[trigger] init[j]).name by {
            assert(init[i] == levels[i] && init[j] == levels[j]);
        }
        lemma_non_time_names_distinct(init);
        let prev = non_time(init);
        let cur = non_time(levels);
        if !levels.last().is_time {
            assert forall|i: int| 0 <= i < prev.len() implies (#[trigger] prev[i]).name
                != levels.last().name by {
                lemma_non_time_origin(init, i);
                let j = choose|j: int| 0 <= j < init.len() && init[j] == prev[i];
                assert(levels[j] == init[j]);
            }
            assert forall|i: int, j: int|
                0 <= i < cur.len() && 0 <= j < cur.len() && i != j implies (#[trigger] cur[i]).name
                != (#[trigger] cur[j]).name by {
                if i < prev.len() && j < prev.len() {
                    assert(cur[i] == prev[i] && cur[j] == prev[j]);
                } else if i < prev.len() {
                    assert(cur[i] == prev[i]);
                } else {
                    assert(cur[j] == prev[j]);
                }
            }
        }
    }
}

/// Text framed as `p + x + r`, with `x` free of quotes and `r` starting with
/// a quote, determines `x` and `r`.
proof fn lemma_split_at_quote(p: Seq<char>, x1: Seq<char>, r1: Seq<char>, x2: Seq<char>, r2: Seq<char>)
    requires
        p + x1 + r1 == p + x2 + r2,
        !x1.contains('\''),
        !x2.contains('\''),
        r1.len() > 0 && r1[0] == '\'',
        r2.len() > 0 && r2[0] == '\'',
    ensures
        x1 == x2,
        r1 == r2,
{
    let s = p + x1 + r1;
    let s2 = p + x2 + r2;
    if x1.len() < x2.len() {
        assert(s[(p.len() + x1.len()) as int] == r1[0]);
        assert(s2[(p.len() + x1.len()) as int] == x2[x1.len() as int]);
        assert(x2.contains(x2[x1.len() as int]));
    } else if x2.len() < x1.len() {
        assert(s2[(p.len() + x2.len()) as int] == r2[0]);
        assert(s[(p.len() + x2.len()) as int] == x1[x2.len() as int]);
        assert(x1.contains(x1[x2.len() as int]));
    }
    assert(x1 =~= s.subrange(p.len() as int, (p.len() + x1.len()) as int));
    assert(x2 =~= s2.subrange(p.len() as int, (p.len() + x2.len()) as int));
    assert(r1 =~= s.skip((p.len() + x1.len()) as int));
    assert(r2 =~= s2.skip((p.len() + x2.len()) as int));
}

/// A framed text determines what stands in the frame.
proof fn lemma_frame_cancel(m: Seq<char>, c1: Seq<char>, c2: Seq<char>, q: Seq<char>)
    requires
        m + c1 + q == m + c2 + q,
    ensures
        c1 == c2,
{
    let s = m + c1 + q;
    assert(c1 =~= s.subrange(m.len() as int, (m.len() + c1.len()) as int));
    assert(c2 =~= (m + c2 + q).subrange(m.len() as int, (m.len() + c2.len()) as int));
}

/// Two drills from different dimensions of the last MQO have different
/// rationales, unless the level text of one of the two holds a quote.
proof fn lemma_drill_rationales_differ(session: JsonV, model: JsonV, j1: int, j2: int)
    requires
        level_names_distinct(model),
        spec_last_dimensions(session).no_duplicates(),
        0 <= j1 < j2 < drill_options(session, model).len(),
        drill_options(session, model)[j1] is Some,
        drill_options(session, model)[j2] is Some,
    ensures
        drill_options(session, model)[j1]->0.rationale == drill_options(session, model)[j2]->0.rationale
            ==> spec_last_dimensions(session)[j1].1.contains('\'') || spec_last_dimensions(
            session,
        )[j2].1.contains('\''),
{
    let ds = spec_last_dimensions(session);
    let t = spec_touched(session);
    let d1 = ds[j1];
    let d2 = ds[j2];
    let c1 = drill_target(model, t, d1)->0;
    let c2 = drill_target(model, t, d2)->0;
    let r1 = drill_options(session, model)[j1]->0.rationale;
    let r2 = drill_options(session, model)[j2]->0.rationale;
    let p = "High cardinality on '"@;
    let m = "'; drill to '"@;
    let q = "'"@;
    if r1 == r2 && !d1.1.contains('\'') && !d2.1.contains('\'') {
        reveal_strlit("'; drill to '");
        assert(r1 =~= p + d1.1 + (m + c1 + q));
        assert(r2 =~= p + d2.1 + (m + c2 + q));
        lemma_split_at_quote(p, d1.1, m + c1 + q, d2.1, m + c2 + q);
        lemma_frame_cancel(m, c1, c2, q);
        assert(d1 != d2);
        assert(d1.0 != d2.0);
        lemma_drill_target_fresh(model, t, d1);
        lemma_drill_target_fresh(model, t, d2);
        let hs = hierarchies(model);
        let (a1, b1) = choose|a: int, b: int|
            0 <= a < hs.len() && 0 <= b < level_entries(hs[a]).len() && #[trigger] fresh_entry(
                hs[a],
                level_entries(hs[a])[b],
                t,
                d1.0,
                c1,
            );
        let (a2, b2) = choose|a: int, b: int|
            0 <= a < hs.len() && 0 <= b < level_entries(hs[a]).len() && #[trigger] fresh_entry(
                hs[a],
                level_entries(hs[a])[b],
                t,
                d2.0,
                c2,
            );
        assert(a1 != a2);
        assert(str_at(level_entries(hs[a1])[b1], "name"@) != str_at(level_entries(hs[a2])[b2], "name"@));
    }
}

/// Levels with different names give the same framed rationale only where
/// one of the names holds a quote.
proof fn lemma_level_rationales_differ(p: Seq<char>, m: Seq<char>, q: Seq<char>, l1: LevelV, l2: LevelV)
    requires
        l1.name != l2.name,
        m.len() > 0 && m[0] == '\'',
    ensures
        p + l1.name + m + l1.hierarchy + q == p + l2.name + m + l2.hierarchy + q ==> l1.name.contains(
            '\'',
        ) || l2.name.contains('\''),
{
    if p + l1.name + m + l1.hierarchy + q == p + l2.name + m + l2.hierarchy + q && !l1.name.contains(
        '\'',
    ) && !l2.name.contains('\'') {
        assert(p + l1.name + m + l1.hierarchy + q =~= p + l1.name + (m + l1.hierarchy + q));
        assert(p + l2.name + m + l2.hierarchy + q =~= p + l2.name + (m + l2.hierarchy + q));
        lemma_split_at_quote(p, l1.name, m + l1.hierarchy + q, l2.name, m + l2.hierarchy + q);
    }
}

/// The text that a proposal's rationale quotes first: the level drilled
/// from, the unvisited level drilled to, the time hierarchy compared over,
/// or the level pivoted to.
pub open spec fn rationale_subject(
    session: JsonV,
    model: JsonV,
    summary: JsonV,
    count: nat,
    strategy: Strategy,
    i: int,
) -> Seq<char> {
    match spec_effective_strategy(session, model, summary, strategy) {
        Strategy::Drill => if trunc(somes(drill_options(session, model)), count).len() > 0 {
            drill_moves(session, model)[i].1
        } else {
            trunc(spec_unvisited(model, spec_touched(session)), count)[i].name
        },
        Strategy::Compare => spec_first_time_hierarchy(model)->0,
        _ => trunc(pivot_candidates(session, model), count)[i].name,
    }
}

/// Two drafts of the strategy that runs share a rationale only where the
/// subject of one of them holds a quote.
proof fn lemma_drafts_rationales_differ(
    session: JsonV,
    model: JsonV,
    summary: JsonV,
    count: nat,
    strategy: Strategy,
)
    requires
        level_names_distinct(model),
        spec_last_dimensions(session).no_duplicates(),
    ensures
        forall|i: int, j: int|
            0 <= i < j < spec_drafts(session, model, summary, count, strategy).len() && (
            #[trigger] spec_drafts(session, model, summary, count, strategy)[i]).rationale == (
            #[trigger] spec_drafts(session, model, summary, count, strategy)[j]).rationale
                ==> rationale_subject(session, model, summary, count, strategy, i).contains('\'')
                || rationale_subject(session, model, summary, count, strategy, j).contains('\''),
{
    let drafts = spec_drafts(session, model, summary, count, strategy);
    let t = spec_touched(session);
    let ms = spec_last_measures(session);
    let mn = spec_last_model_name(session);
    let ds = spec_last_dimensions(session);
    let u = spec_unvisited(model, t);
    let hs = hierarchies(model);
    assert forall|a1: int, b1: int, a2: int, b2: int|
        0 <= a1 < hs.len() && 0 <= b1 < level_entries(hs[a1]).len() && 0 <= a2 < hs.len() && 0 <= b2
            < level_entries(hs[a2]).len() && (a1 != a2 || b1 != b2) implies str_at(
            #[trigger] level_entries(hs[a1])[b1],
            "name"@,
        ) != str_at(#[trigger] level_entries(hs[a2])[b2], "name"@) by {}
    lemma_levels_upto_names_distinct(hs);
    lemma_unvisited_names_distinct(spec_all_levels(model), t);
    lemma_non_time_names_distinct(u);
    reveal_strlit("' in hierarchy '");
    reveal_strlit("' (hierarchy: '");
    reveal_strlit("No time intelligence in prior MQOs; add prior_period comparison on '");
    reveal_strlit("Year-over-year comparison using '");
    if ms.len() > 0 && mn.len() > 0 {
        match spec_effective_strategy(session, model, summary, strategy) {
            Strategy::Drill => {
                let opts = drill_options(session, model);
                let all = somes(opts);
                let first = trunc(all, count);
                let mo = drill_move_options(session, model);
                let mv = drill_moves(session, model);
                let f = |m: (Seq<char>, Seq<char>, Seq<char>)| drill_draft(mn, ms, ds, (m.0, m.1), m.2);
                assert(opts =~= map_options(mo, f));
                lemma_somes_map(mo, f);
                if first.len() > 0 {
                    assert forall|i: int, j: int|
                        0 <= i < j < first.len() && (#[trigger] first[i]).rationale == (
                        #[trigger] first[j]).rationale implies mv[i].1.contains('\'') || mv[j].1.contains(
                        '\'',
                    ) by {
                        lemma_somes_origin_ordered(mo, i, j);
                        let (j1, j2) = choose|j1: int, j2: int|
                            0 <= j1 < j2 < mo.len() && mo[j1] == Some(mv[i]) && mo[j2] == Some(mv[j]);
                        assert(all[i] == f(mv[i]) && all[j] == f(mv[j]));
                        assert(opts[j1] == Some(all[i]) && opts[j2] == Some(all[j]));
                        lemma_drill_rationales_differ(session, model, j1, j2);
                    }
                } else {
                    let ud = unvisited_drafts(session, model, count);
                    let tu = trunc(u, count);
                    assert forall|i: int, j: int|
                        0 <= i < j < ud.len() && (#[trigger] ud[i]).rationale == (
                        #[trigger] ud[j]).rationale implies tu[i].name.contains('\'') || tu[j].name.contains(
                        '\'',
                    ) by {
                        assert(tu[i] == u[i] && tu[j] == u[j]);
                        lemma_level_rationales_differ(
                            "Unvisited level '"@,
                            "' in hierarchy '"@,
                            "'"@,
                            u[i],
                            u[j],
                        );
                    }
                }
            },
            Strategy::Compare => {
                let c = spec_compare(session, model, count);
                assert forall|i: int, j: int| 0 <= i < j < c.len() implies (#[trigger] c[i]).rationale
                    != (#[trigger] c[j]).rationale by {
                    assert(c[i].rationale[0] == 'N');
                    assert(c[j].rationale[0] == 'Y');
                }
            },
            _ => {
                let cands = pivot_candidates(session, model);
                let tc = trunc(cands, count);
                let p = spec_pivot(session, model, count);
                assert forall|i: int, j: int|
                    0 <= i < j < p.len() && (#[trigger] p[i]).rationale == (#[trigger] p[j]).rationale
                        implies tc[i].name.contains('\'') || tc[j].name.contains('\'') by {
                    assert(tc[i] == cands[i] && tc[j] == cands[j]);
                    lemma_level_rationales_differ(
                        "Pivot to adjacent dimension '"@,
                        "' (hierarchy: '"@,
                        "')"@,
                        cands[i],
                        cands[j],
                    );
                }
            },
        }
    }
}

/// Where the model's levels have different names and the last MQO lists
/// each dimension once, two proposals share a rationale only where the text
/// that one of them quotes first (its subject) holds a quote; so where no
/// subject does, no two proposals share a rationale.
pub proof fn law_repeated_rationale_needs_quote(
    session: JsonV,
    model: JsonV,
    summary: JsonV,
    count: nat,
    strategy: Strategy,
)
    requires
        level_names_distinct(model),
        spec_last_dimensions(session).no_duplicates(),
    ensures
        forall|i: int, j: int|
            0 <= i < j < spec_propose(session, model, summary, count, strategy).proposals.len() && (
            #[trigger] spec_propose(session, model, summary, count, strategy).proposals[i]).rationale
                == (#[trigger] spec_propose(session, model, summary, count, strategy).proposals[j]).rationale
                ==> rationale_subject(session, model, summary, count, strategy, i).contains('\'')
                || rationale_subject(session, model, summary, count, strategy, j).contains('\''),
        (forall|k: int|
            0 <= k < spec_propose(session, model, summary, count, strategy).proposals.len()
                ==> !(#[trigger] rationale_subject(session, model, summary, count, strategy, k)).contains(
                '\'',
            )) ==> forall|i: int, j: int|
            0 <= i < j < spec_propose(session, model, summary, count, strategy).proposals.len() ==> (
            #[trigger] spec_propose(session, model, summary, count, strategy).proposals[i]).rationale
                != (#[trigger] spec_propose(session, model, summary, count, strategy).proposals[j]).rationale,
{
    let drafts = spec_drafts(session, model, summary, count, strategy);
    lemma_ranked_trunc(drafts, count);
    lemma_drafts_rationales_differ(session, model, summary, count, strategy);
}

// ── Drill, move by move ───────────────────────────────────────────────────

/// For each dimension of the last MQO, the (hierarchy, level, deeper level)
/// move that a drill would make from it, where there is one.
pub open spec fn drill_move_options(session: JsonV, model: JsonV) -> Seq<
    Option<(Seq<char>, Seq<char>, Seq<char>)>,
> {
    let ds = spec_last_dimensions(session);
    Seq::new(
        ds.len(),
        |i: int|
            match drill_target(model, spec_touched(session), ds[i]) {
                Some(c) => Some((ds[i].0, ds[i].1, c)),
                None => None,
            },
    )
}

/// The drill moves, in the order of the dimensions of the last MQO: each
/// dimension that has a deeper level, named and not touched, in its
/// hierarchy.
pub open spec fn drill_moves(session: JsonV, model: JsonV) -> Seq<(Seq<char>, Seq<char>, Seq<char>)> {
    somes(drill_move_options(session, model))
}

/// Where the last MQO names a model and a measure and some of its dimensions
/// can be drilled, the drill proposals are one per drillable dimension, in
/// order, as many as `count` allows: each says which level it drills from
/// and to, keeps the measures, and moves that dimension to the deeper level.
pub proof fn law_drill_moves(session: JsonV, model: JsonV, count: nat)
    requires
        spec_last_measures(session).len() > 0,
        spec_last_model_name(session).len() > 0,
        drill_moves(session, model).len() > 0,
    ensures
        spec_drill(session, model, count).len() == if count < drill_moves(session, model).len() {
            count
        } else {
            drill_moves(session, model).len()
        },
        forall|k: int|
            0 <= k < spec_drill(session, model, count).len() ==> {
                let mv = drill_moves(session, model)[k];
                let d = #[trigger] spec_drill(session, model, count)[k];
                &&& d.strategy == "drill"@
                &&& d.rationale == "High cardinality on '"@ + mv.1 + "'; drill to '"@ + mv.2 + "'"@
                &&& d.mqo == mqo_v(
                    spec_last_model_name(session),
                    spec_last_measures(session),
                    drill_dims(spec_last_dimensions(session), (mv.0, mv.1), mv.2),
                    Seq::empty(),
                )
            },
{
    let ms = spec_last_measures(session);
    let mn = spec_last_model_name(session);
    let ds = spec_last_dimensions(session);
    let mo = drill_move_options(session, model);
    let f = |mv: (Seq<char>, Seq<char>, Seq<char>)| drill_draft(mn, ms, ds, (mv.0, mv.1), mv.2);
    assert(drill_options(session, model) =~= map_options(mo, f));
    lemma_somes_map(mo, f);
    let all = somes(drill_options(session, model));
    assert(all.len() == drill_moves(session, model).len());
    assert forall|k: int| 0 <= k < all.len() implies #[trigger] all[k] == f(drill_moves(session, model)[k]) by {}
}

} // verus!
