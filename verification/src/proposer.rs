//! The proposal engine.
//!
//! Given session state, a model description and the last dataset summary,
//! it builds up to `count` ranked MQO proposals with one strategy:
//!
//! - drill deepens one level in a hierarchy of the last MQO (Region to
//!   State to City), or, where no such level is left, proposes levels the
//!   session has not visited;
//! - compare adds a `prior_period` comparison, then a year-over-year one
//!   on the coarsest level of the first time hierarchy, unless that level
//!   has been touched;
//! - pivot swaps in or adds a dimension level that the session has not
//!   touched.
//!
//! `Strategy::Auto` picks drill where the last result has a column with
//! more than 10 distinct values and unvisited levels remain, else compare
//! where no MQO of the history used time intelligence and the model has a
//! time hierarchy, else pivot.
//!
//! A session that has touched every level the model offers gets no
//! proposal at all, whatever the strategy.

use vstd::prelude::*;

use crate::json::{str_at, str_or, Json, JsonV};
use crate::model::{
    child_level, coarsest_level, first_time_hierarchy, is_level_touched, level_touched,
    level_views, spec_child_level,
    spec_coarsest_level, spec_first_time_hierarchy, spec_unvisited, unvisited_levels, Level,
    LevelV,
};
use crate::mqo::{lemma_mqo_validates, mqo_json, mqo_v, op_json, op_v};
use crate::session::{
    contains_text, has_time_intelligence, last_dimensions, last_measures, last_model_name,
    pair_views, session_id, spec_has_time_intelligence, spec_last_dimensions, spec_last_measures,
    spec_last_model_name, spec_session_id, spec_touched, string_views, touched_entities,
};
use crate::seqs::{lemma_somes_prefix, lemma_somes_step, somes, trunc};
use crate::types::{proposal_views, Output, OutputV, Proposal, ProposalV, Strategy};
use crate::validate::validate;

verus! {

/// A proposal before it is ranked.
pub struct Draft {
    pub strategy: Seq<char>,
    pub rationale: Seq<char>,
    pub mqo: JsonV,
}

/// The drafts ranked 1, 2, ... in order.
pub open spec fn ranked(drafts: Seq<Draft>) -> Seq<ProposalV> {
    Seq::new(
        drafts.len(),
        |i: int|
            ProposalV {
                rank: i + 1,
                strategy: drafts[i].strategy,
                rationale: drafts[i].rationale,
                mqo: drafts[i].mqo,
            },
    )
}

/// Ranking one more draft adds it with the next rank.
pub proof fn lemma_ranked_push(drafts: Seq<Draft>, d: Draft)
    ensures
        ranked(drafts.push(d)) =~= ranked(drafts).push(
            ProposalV {
                rank: drafts.len() + 1int,
                strategy: d.strategy,
                rationale: d.rationale,
                mqo: d.mqo,
            },
        ),
{
}

// ── Strategy selection ─────────────────────────────────────────────────────

/// The `distinct` count of a column summary, 0 where it has none.
pub open spec fn distinct_count(stats: JsonV) -> u64 {
    match stats.at("distinct"@).as_u64() {
        Some(n) => n,
        None => 0,
    }
}

/// Whether some column of the summary has more than 10 distinct values.
pub open spec fn spec_high_cardinality(summary: JsonV) -> bool {
    match summary.at("stats"@).as_object() {
        Some(columns) => exists|i: int|
            0 <= i < columns.len() && distinct_count(#[trigger] columns[i].1) > 10,
        None => false,
    }
}

/// The strategy that `Strategy::Auto` stands for.
pub open spec fn spec_select_auto(session: JsonV, model: JsonV, summary: JsonV) -> Strategy {
    if spec_high_cardinality(summary) && spec_unvisited(model, spec_touched(session)).len() > 0 {
        Strategy::Drill
    } else if !spec_has_time_intelligence(session) && spec_first_time_hierarchy(model) is Some {
        Strategy::Compare
    } else {
        Strategy::Pivot
    }
}

/// Whether some column of the summary has more than 10 distinct values.
fn high_cardinality(summary: &Json) -> (r: bool)
    ensures
        r == spec_high_cardinality(summary@),
{
    let stats = match summary.field("stats") {
        Some(s) => s,
        None => return false,
    };
    let columns = match stats.as_object() {
        Some(c) => c,
        None => return false,
    };
    let ghost cv = crate::json::entry_views(columns@);
    let mut i: usize = 0;
    #[verifier::loop_isolation(false)]
    while i < columns.len()
        invariant
            i <= columns@.len(),
            cv == crate::json::entry_views(columns@),
            forall|j: int| 0 <= j < i ==> distinct_count(#[trigger] cv[j].1) <= 10,
        decreases columns@.len() - i,
    {
        let n = match columns[i].1.u64_field("distinct") {
            Some(n) => n,
            None => 0,
        };
        if n > 10 {
            assert(distinct_count(cv[i as int].1) > 10);
            let ghost c2 = summary@.at("stats"@).as_object()->0;
            assert(c2 == cv);
            assert(distinct_count(c2[i as int].1) > 10);
            return true;
        }
        i = i + 1;
    }
    false
}

/// Determine the effective strategy when `Strategy::Auto` is requested.
pub fn select_auto_strategy(session: &Json, model: &Json, summary: &Json) -> (r: Strategy)
    ensures
        r == spec_select_auto(session@, model@, summary@),
{
    let touched = touched_entities(session);
    let unvisited = unvisited_levels(model, &touched);
    proof {
        assert(string_views(touched@).to_set() == spec_touched(session@));
        assert(level_views(unvisited@).len() == unvisited@.len());
    }
    if high_cardinality(summary) && unvisited.len() > 0 {
        return Strategy::Drill;
    }
    if !has_time_intelligence(session) {
        if first_time_hierarchy(model).is_some() {
            return Strategy::Compare;
        }
    }
    Strategy::Pivot
}

// ── Drill ─────────────────────────────────────────────────────────────────

/// The name of the level to drill to from dimension `d`, where the model
/// has a deeper level that is named and not touched.
pub open spec fn drill_target(
    model: JsonV,
    touched: Set<Seq<char>>,
    d: (Seq<char>, Seq<char>),
) -> Option<Seq<char>> {
    match spec_child_level(model, d.0, d.1) {
        Some(child) => {
            let name = str_at(child, "name"@);
            if touched.contains(str_at(child, "unique_name"@)) || name.len() == 0 {
                None
            } else {
                Some(name)
            }
        },
        None => None,
    }
}

/// The dimensions `ds` with every occurrence of `d` moved to level `name`.
pub open spec fn drill_dims(
    ds: Seq<(Seq<char>, Seq<char>)>,
    d: (Seq<char>, Seq<char>),
    name: Seq<char>,
) -> Seq<(Seq<char>, Seq<char>)> {
    Seq::new(
        ds.len(),
        |i: int|
            if ds[i] == d {
                (ds[i].0, name)
            } else {
                ds[i]
            },
    )
}

/// The drill from dimension `d` to level `name`.
pub open spec fn drill_draft(
    model_name: Seq<char>,
    ms: Seq<Seq<char>>,
    ds: Seq<(Seq<char>, Seq<char>)>,
    d: (Seq<char>, Seq<char>),
    name: Seq<char>,
) -> Draft {
    Draft {
        strategy: "drill"@,
        rationale: "High cardinality on '"@ + d.1 + "'; drill to '"@ + name + "'"@,
        mqo: mqo_v(model_name, ms, drill_dims(ds, d, name), Seq::empty()),
    }
}

/// For each dimension of the last MQO, the drill from it, where there is one.
pub open spec fn drill_options(session: JsonV, model: JsonV) -> Seq<Option<Draft>> {
    let ds = spec_last_dimensions(session);
    Seq::new(
        ds.len(),
        |i: int|
            match drill_target(model, spec_touched(session), ds[i]) {
                Some(name) => Some(
                    drill_draft(
                        spec_last_model_name(session),
                        spec_last_measures(session),
                        ds,
                        ds[i],
                        name,
                    ),
                ),
                None => None,
            },
    )
}

/// The drill to an unvisited level, as the only dimension.
pub open spec fn unvisited_draft(model_name: Seq<char>, ms: Seq<Seq<char>>, l: LevelV) -> Draft {
    Draft {
        strategy: "drill"@,
        rationale: "Unvisited level '"@ + l.name + "' in hierarchy '"@ + l.hierarchy + "'"@,
        mqo: mqo_v(model_name, ms, seq![(l.hierarchy, l.name)], Seq::empty()),
    }
}

/// The drills to the first `count` unvisited levels.
pub open spec fn unvisited_drafts(session: JsonV, model: JsonV, count: nat) -> Seq<Draft> {
    let u = trunc(spec_unvisited(model, spec_touched(session)), count);
    Seq::new(
        u.len(),
        |i: int| unvisited_draft(spec_last_model_name(session), spec_last_measures(session), u[i]),
    )
}

/// The drill proposals: the first `count` drills from the dimensions of
/// the last MQO, or, where there are none, drills to unvisited levels.
/// None where the last MQO names no model or no measure.
pub open spec fn spec_drill(session: JsonV, model: JsonV, count: nat) -> Seq<Draft> {
    if spec_last_measures(session).len() == 0 || spec_last_model_name(session).len() == 0 {
        Seq::empty()
    } else {
        let first = trunc(somes(drill_options(session, model)), count);
        if first.len() > 0 {
            first
        } else {
            unvisited_drafts(session, model, count)
        }
    }
}

/// The dimensions with every occurrence of `dims[i]` moved to `name`.
fn drill_dims_exec(dims: &Vec<(String, String)>, i: usize, name: &String) -> (r: Vec<
    (String, String),
>)
    requires
        i < dims@.len(),
    ensures
        pair_views(r@) == drill_dims(pair_views(dims@), pair_views(dims@)[i as int], name@),
{
    let ghost ds = pair_views(dims@);
    let ghost target = ds[i as int];
    let mut r: Vec<(String, String)> = Vec::new();
    let mut k: usize = 0;
    while k < dims.len()
        invariant
            k <= dims@.len(),
            i < dims@.len(),
            ds == pair_views(dims@),
            target == ds[i as int],
            pair_views(r@) == drill_dims(ds, target, name@).take(k as int),
        decreases dims@.len() - k,
    {
        let ghost prev = pair_views(r@);
        let same = dims[k].0 == dims[i].0 && dims[k].1 == dims[i].1;
        if same {
            r.push((dims[k].0.clone(), name.clone()));
        } else {
            r.push((dims[k].0.clone(), dims[k].1.clone()));
        }
        assert(pair_views(r@) =~= prev.push(drill_dims(ds, target, name@)[k as int]));
        assert(pair_views(r@) =~= drill_dims(ds, target, name@).take(k + 1));
        k = k + 1;
    }
    assert(pair_views(r@) =~= drill_dims(ds, target, name@));
    r
}

/// A proposal of rank `rank`.
fn make_proposal(rank: usize, strategy: &str, rationale: String, mqo: Json) -> (r: Proposal)
    ensures
        r@ == (ProposalV { rank: rank as int, strategy: strategy@, rationale: rationale@, mqo: mqo@ }),
{
    Proposal { rank, strategy: String::from_str(strategy), rationale, mqo }
}

/// Build drill proposals: deepen one level in the current dimensions.
pub fn build_drill_proposals(session: &Json, model: &Json, count: usize) -> (r: Vec<Proposal>)
    ensures
        proposal_views(r@) == ranked(spec_drill(session@, model@, count as nat)),
{
    let measures = last_measures(session);
    let dims = last_dimensions(session);
    let model_name = last_model_name(session);
    let touched = touched_entities(session);
    let ghost ms = string_views(measures@);
    let ghost ds = pair_views(dims@);
    let ghost mn = model_name@;
    let ghost t = spec_touched(session@);
    let ghost opts = drill_options(session@, model@);
    let ghost valid = ms.len() > 0 && mn.len() > 0;

    let mut proposals: Vec<Proposal> = Vec::new();
    if measures.len() == 0 {
        assert(proposal_views(proposals@) =~= ranked(spec_drill(session@, model@, count as nat)));
        return proposals;
    }
    let mut i: usize = 0;
    #[verifier::loop_isolation(false)]
    while i < dims.len() && proposals.len() < count
        invariant
            i <= dims@.len(),
            proposals@.len() <= count,
            proposal_views(proposals@) == ranked(
                if valid {
                    somes(opts.take(i as int))
                } else {
                    Seq::empty()
                },
            ),
        decreases dims@.len() - i,
    {
        proof {
            lemma_somes_step(opts, i as int);
        }
        let ghost prev = proposal_views(proposals@);
        let hierarchy = &dims[i].0;
        let level_name = &dims[i].1;
        match child_level(model, hierarchy.as_str(), level_name.as_str()) {
            Some(child) => {
                let child_name = child.text_field("name");
                let child_unique = child.text_field("unique_name");
                assert(string_views(touched@).contains(child_unique@) == t.contains(child_unique@));
                if !contains_text(&touched, &child_unique) && !child_name.as_str().is_empty() {
                    let new_dims = drill_dims_exec(&dims, i, &child_name);
                    let ti: Vec<Json> = Vec::new();
                    assert(crate::json::views(ti@) =~= Seq::<JsonV>::empty());
                    let mqo = mqo_json(&model_name, &measures, &new_dims, ti);
                    proof {
                        lemma_mqo_validates(mn, ms, pair_views(new_dims@), Seq::empty());
                    }
                    if validate(&mqo).is_ok() {
                        let mut rationale = String::from_str("High cardinality on '");
                        rationale.append(level_name.as_str());
                        rationale.append("'; drill to '");
                        rationale.append(child_name.as_str());
                        rationale.append("'");
                        let p = make_proposal(proposals.len() + 1, "drill", rationale, mqo);
                        proposals.push(p);
                        let ghost dd = drill_draft(mn, ms, ds, ds[i as int], child_name@);
                        assert(opts[i as int] == Some(dd));
                        assert(valid);
                        assert(somes(opts.take(i + 1)) == somes(opts.take(i as int)).push(dd));
                        proof {
                            reveal_strlit("drill");
                            lemma_ranked_push(somes(opts.take(i as int)), dd);
                        }
                        assert(p@.mqo == dd.mqo);
                        assert(p@.rationale == dd.rationale);
                        assert(p@.strategy == dd.strategy);
                        assert(proposal_views(proposals@) =~= prev.push(p@));
                        assert(proposal_views(proposals@) =~= ranked(
                            somes(opts.take(i + 1)),
                        ));
                    } else {
                        assert(proposal_views(proposals@) =~= ranked(Seq::empty()));
                    }
                } else {
                    assert(opts[i as int] is None);
                }
            },
            None => {
                assert(opts[i as int] is None);
            },
        }
        i = i + 1;
    }
    proof {
        lemma_somes_prefix(opts, i as int);
        if i == dims.len() {
            assert(opts.take(i as int) =~= opts);
        }
        let all = somes(opts);
        let got = somes(opts.take(i as int));
        if valid {
            if got.len() < count {
                assert(i == dims.len());
                assert(trunc(all, count as nat) =~= got);
            } else {
                assert(trunc(all, count as nat) =~= got);
            }
        }
    }
    if proposals.len() > 0 {
        return proposals;
    }
    let unvisited = unvisited_levels(model, &touched);
    let ghost u = trunc(level_views(unvisited@), count as nat);
    let mut j: usize = 0;
    #[verifier::loop_isolation(false)]
    while j < unvisited.len() && j < count
        invariant
            j <= unvisited@.len(),
            j <= count,
            proposal_views(proposals@) == ranked(
                if valid {
                    unvisited_drafts(session@, model@, count as nat).take(j as int)
                } else {
                    Seq::empty()
                },
            ),
        decreases unvisited@.len() - j,
    {
        let level = &unvisited[j];
        let mut one: Vec<(String, String)> = Vec::new();
        one.push((level.hierarchy.clone(), level.name.clone()));
        let ti: Vec<Json> = Vec::new();
        assert(crate::json::views(ti@) =~= Seq::<JsonV>::empty());
        let mqo = mqo_json(&model_name, &measures, &one, ti);
        proof {
            lemma_mqo_validates(mn, ms, pair_views(one@), Seq::empty());
            assert(pair_views(one@) =~= seq![(level.hierarchy@, level.name@)]);
        }
        if validate(&mqo).is_ok() {
            let mut rationale = String::from_str("Unvisited level '");
            rationale.append(level.name.as_str());
            rationale.append("' in hierarchy '");
            rationale.append(level.hierarchy.as_str());
            rationale.append("'");
            let ghost prev = proposal_views(proposals@);
            let p = make_proposal(proposals.len() + 1, "drill", rationale, mqo);
            proposals.push(p);
            let ghost all = unvisited_drafts(session@, model@, count as nat);
            let ghost ud = unvisited_draft(mn, ms, level@);
            assert(level_views(unvisited@) == spec_unvisited(model@, t));
            assert(u[j as int] == level@);
            assert(all[j as int] == ud);
            assert(all.take(j + 1) =~= all.take(j as int).push(ud));
            assert(valid);
            proof {
                reveal_strlit("drill");
                lemma_ranked_push(all.take(j as int), ud);
            }
            assert(proposal_views(proposals@) =~= prev.push(p@));
            assert(proposal_views(proposals@) =~= ranked(
                unvisited_drafts(session@, model@, count as nat).take(j + 1),
            ));
        }
        j = j + 1;
    }
    proof {
        if valid {
            assert(unvisited_drafts(session@, model@, count as nat).take(j as int)
                =~= unvisited_drafts(session@, model@, count as nat));
        }
    }
    proposals
}

// ── Compare ───────────────────────────────────────────────────────────────

/// The comparison with the prior period, on the dimensions of the last MQO.
pub open spec fn prior_period_draft(
    model_name: Seq<char>,
    ms: Seq<Seq<char>>,
    ds: Seq<(Seq<char>, Seq<char>)>,
    time_hierarchy: Seq<char>,
) -> Draft {
    Draft {
        strategy: "compare"@,
        rationale: "No time intelligence in prior MQOs; add prior_period comparison on '"@
            + time_hierarchy + "'"@,
        mqo: mqo_v(model_name, ms, ds, seq![op_v("prior_period"@)]),
    }
}

/// The year-over-year comparison, with the time level added as a dimension.
pub open spec fn yoy_draft(
    model_name: Seq<char>,
    ms: Seq<Seq<char>>,
    ds: Seq<(Seq<char>, Seq<char>)>,
    time_hierarchy: Seq<char>,
    time_level: Seq<char>,
) -> Draft {
    Draft {
        strategy: "compare"@,
        rationale: "Year-over-year comparison using '"@ + time_hierarchy + "'"@,
        mqo: mqo_v(model_name, ms, ds.push((time_hierarchy, time_level)), seq![op_v("yoy"@)]),
    }
}

/// The compare proposals: a prior-period comparison, then a year-over-year
/// one on the coarsest level of the first time hierarchy (`Year` where it
/// has none), as many as `count` allows. The year-over-year one is left out
/// where that level has been touched. None where the last MQO names no
/// model or no measure, or the model has no time hierarchy.
pub open spec fn spec_compare(session: JsonV, model: JsonV, count: nat) -> Seq<Draft> {
    let ms = spec_last_measures(session);
    let mn = spec_last_model_name(session);
    let ds = spec_last_dimensions(session);
    if ms.len() == 0 || mn.len() == 0 {
        Seq::empty()
    } else {
        match spec_first_time_hierarchy(model) {
            None => Seq::empty(),
            Some(th) => {
                let tl = str_or(spec_coarsest_level(model, th), "Year"@);
                if level_touched(model, spec_touched(session), th, tl) {
                    trunc(seq![prior_period_draft(mn, ms, ds, th)], count)
                } else {
                    trunc(seq![prior_period_draft(mn, ms, ds, th), yoy_draft(mn, ms, ds, th, tl)], count)
                }
            },
        }
    }
}

/// A copy of a sequence of pairs of strings.
fn clone_pairs(v: &Vec<(String, String)>) -> (r: Vec<(String, String)>)
    ensures
        pair_views(r@) == pair_views(v@),
{
    let mut r: Vec<(String, String)> = Vec::new();
    let mut k: usize = 0;
    while k < v.len()
        invariant
            k <= v@.len(),
            pair_views(r@) == pair_views(v@).take(k as int),
        decreases v@.len() - k,
    {
        let ghost prev = pair_views(r@);
        r.push((v[k].0.clone(), v[k].1.clone()));
        assert(pair_views(r@) =~= prev.push(pair_views(v@)[k as int]));
        assert(pair_views(r@) =~= pair_views(v@).take(k + 1));
        k = k + 1;
    }
    assert(pair_views(r@) =~= pair_views(v@));
    r
}

/// Build compare proposals: add time intelligence to the current query.
pub fn build_compare_proposals(session: &Json, model: &Json, count: usize) -> (r: Vec<Proposal>)
    ensures
        proposal_views(r@) == ranked(spec_compare(session@, model@, count as nat)),
{
    let measures = last_measures(session);
    let dims = last_dimensions(session);
    let model_name = last_model_name(session);
    let ghost ms = string_views(measures@);
    let ghost ds = pair_views(dims@);
    let ghost mn = model_name@;
    let mut proposals: Vec<Proposal> = Vec::new();
    if measures.len() == 0 {
        assert(proposal_views(proposals@) =~= ranked(spec_compare(session@, model@, count as nat)));
        return proposals;
    }
    let time_hierarchy = match first_time_hierarchy(model) {
        Some(th) => th,
        None => {
            assert(proposal_views(proposals@) =~= ranked(
                spec_compare(session@, model@, count as nat),
            ));
            return proposals;
        },
    };
    let time_level = match coarsest_level(model, time_hierarchy.as_str()) {
        Some(tl) => tl,
        None => String::from_str("Year"),
    };
    let touched = touched_entities(session);
    let time_level_touched = is_level_touched(model, &touched, &time_hierarchy, &time_level);
    let ghost th = time_hierarchy@;
    let ghost tl = time_level@;
    let ghost p1 = prior_period_draft(mn, ms, ds, th);
    let ghost p2 = yoy_draft(mn, ms, ds, th, tl);
    proof {
        reveal_strlit("compare");
        lemma_mqo_validates(mn, ms, ds, seq![op_v("prior_period"@)]);
        lemma_mqo_validates(mn, ms, ds.push((th, tl)), seq![op_v("yoy"@)]);
    }

    // Prior period
    if proposals.len() < count {
        let mut ti: Vec<Json> = Vec::new();
        ti.push(op_json("prior_period"));
        assert(crate::json::views(ti@) =~= seq![op_v("prior_period"@)]);
        let mqo = mqo_json(&model_name, &measures, &dims, ti);
        if validate(&mqo).is_ok() {
            let mut rationale = String::from_str(
                "No time intelligence in prior MQOs; add prior_period comparison on '",
            );
            rationale.append(time_hierarchy.as_str());
            rationale.append("'");
            let p = make_proposal(proposals.len() + 1, "compare", rationale, mqo);
            proposals.push(p);
            proof {
                lemma_ranked_push(Seq::empty(), p1);
            }
            assert(proposal_views(proposals@) =~= ranked(seq![p1]));
        }
    }
    // Year over year, if count allows and its time level is not touched
    if proposals.len() < count && !time_level_touched {
        let ghost prev = proposal_views(proposals@);
        let mut dims_with_time = clone_pairs(&dims);
        dims_with_time.push((time_hierarchy.clone(), time_level.clone()));
        assert(pair_views(dims_with_time@) =~= ds.push((th, tl)));
        let mut ti: Vec<Json> = Vec::new();
        ti.push(op_json("yoy"));
        assert(crate::json::views(ti@) =~= seq![op_v("yoy"@)]);
        let mqo = mqo_json(&model_name, &measures, &dims_with_time, ti);
        if validate(&mqo).is_ok() {
            let mut rationale = String::from_str("Year-over-year comparison using '");
            rationale.append(time_hierarchy.as_str());
            rationale.append("'");
            let p = make_proposal(proposals.len() + 1, "compare", rationale, mqo);
            proposals.push(p);
            proof {
                lemma_ranked_push(seq![p1], p2);
            }
            assert(seq![p1].push(p2) =~= seq![p1, p2]);
            assert(proposal_views(proposals@) =~= prev.push(p@));
            assert(proposal_views(proposals@) =~= ranked(seq![p1, p2]));
        }
    }
    proof {
        let all = if time_level_touched { seq![p1] } else { seq![p1, p2] };
        if mn.len() > 0 {
            if count == 0 {
                assert(trunc(all, count as nat) =~= Seq::<Draft>::empty());
            } else if count == 1 || time_level_touched {
                assert(trunc(all, count as nat) =~= seq![p1]);
            } else {
                assert(trunc(all, count as nat) =~= all);
            }
        }
    }
    assert(proposal_views(proposals@) =~= ranked(spec_compare(session@, model@, count as nat)));
    proposals
}

// ── Pivot ─────────────────────────────────────────────────────────────────

/// The levels that are not of a time hierarchy.
pub open spec fn non_time(levels: Seq<LevelV>) -> Seq<LevelV>
    decreases levels.len(),
{
    if levels.len() == 0 {
        Seq::empty()
    } else if levels.last().is_time {
        non_time(levels.drop_last())
    } else {
        non_time(levels.drop_last()).push(levels.last())
    }
}

/// The levels to pivot to: unvisited levels of hierarchies that are not time.
pub open spec fn pivot_candidates(session: JsonV, model: JsonV) -> Seq<LevelV> {
    non_time(spec_unvisited(model, spec_touched(session)))
}

/// Whether some dimension is of hierarchy `h`.
pub open spec fn has_hierarchy(ds: Seq<(Seq<char>, Seq<char>)>, h: Seq<char>) -> bool {
    exists|i: int| 0 <= i < ds.len() && (#[trigger] ds[i]).0 == h
}

/// The dimensions with level `l` swapped in for every dimension of its
/// hierarchy, or added where there is none.
pub open spec fn pivot_dims(ds: Seq<(Seq<char>, Seq<char>)>, l: LevelV) -> Seq<(Seq<char>, Seq<char>)> {
    if has_hierarchy(ds, l.hierarchy) {
        Seq::new(
            ds.len(),
            |i: int|
                if ds[i].0 == l.hierarchy {
                    (ds[i].0, l.name)
                } else {
                    ds[i]
                },
        )
    } else {
        ds.push((l.hierarchy, l.name))
    }
}

/// The pivot to level `l`.
pub open spec fn pivot_draft(
    model_name: Seq<char>,
    ms: Seq<Seq<char>>,
    ds: Seq<(Seq<char>, Seq<char>)>,
    l: LevelV,
) -> Draft {
    Draft {
        strategy: "pivot"@,
        rationale: "Pivot to adjacent dimension '"@ + l.name + "' (hierarchy: '"@ + l.hierarchy
            + "')"@,
        mqo: mqo_v(model_name, ms, pivot_dims(ds, l), Seq::empty()),
    }
}

/// The pivot proposals: pivots to the first `count` candidate levels. None
/// where the last MQO names no model or no measure.
pub open spec fn spec_pivot(session: JsonV, model: JsonV, count: nat) -> Seq<Draft> {
    let ms = spec_last_measures(session);
    let mn = spec_last_model_name(session);
    if ms.len() == 0 || mn.len() == 0 {
        Seq::empty()
    } else {
        let c = trunc(pivot_candidates(session, model), count);
        Seq::new(c.len(), |i: int| pivot_draft(mn, ms, spec_last_dimensions(session), c[i]))
    }
}

/// The levels of `levels` that are not of a time hierarchy.
fn non_time_levels(levels: &Vec<Level>) -> (r: Vec<Level>)
    ensures
        level_views(r@) == non_time(level_views(levels@)),
{
    let ghost lv = level_views(levels@);
    let mut r: Vec<Level> = Vec::new();
    let mut i: usize = 0;
    while i < levels.len()
        invariant
            i <= levels@.len(),
            lv == level_views(levels@),
            level_views(r@) == non_time(lv.take(i as int)),
        decreases levels@.len() - i,
    {
        let l = &levels[i];
        assert(lv.take(i + 1).drop_last() =~= lv.take(i as int));
        if !l.is_time {
            let ghost prev = level_views(r@);
            r.push(
                Level {
                    unique_name: l.unique_name.clone(),
                    name: l.name.clone(),
                    depth: l.depth,
                    hierarchy: l.hierarchy.clone(),
                    is_time: l.is_time,
                },
            );
            assert(level_views(r@) =~= prev.push(lv[i as int]));
        }
        assert(level_views(r@) =~= non_time(lv.take(i + 1)));
        i = i + 1;
    }
    assert(lv.take(levels@.len() as int) =~= lv);
    r
}

/// The dimensions with `level` swapped in or added.
fn pivot_dims_exec(dims: &Vec<(String, String)>, level: &Level) -> (r: Vec<(String, String)>)
    ensures
        pair_views(r@) == pivot_dims(pair_views(dims@), level@),
{
    let ghost ds = pair_views(dims@);
    let mut already_in = false;
    let mut k: usize = 0;
    while k < dims.len()
        invariant
            k <= dims@.len(),
            ds == pair_views(dims@),
            already_in <==> exists|j: int| 0 <= j < k && (#[trigger] ds[j]).0 == level.hierarchy@,
        decreases dims@.len() - k,
    {
        assert(ds[k as int].0 == dims@[k as int].0@);
        if dims[k].0 == level.hierarchy {
            already_in = true;
        }
        k = k + 1;
    }
    if already_in {
        let mut r: Vec<(String, String)> = Vec::new();
        let mut k: usize = 0;
        while k < dims.len()
            invariant
                k <= dims@.len(),
                ds == pair_views(dims@),
                has_hierarchy(ds, level.hierarchy@),
                pair_views(r@) == pivot_dims(ds, level@).take(k as int),
            decreases dims@.len() - k,
        {
            let ghost prev = pair_views(r@);
            assert(ds[k as int].0 == dims@[k as int].0@);
            if dims[k].0 == level.hierarchy {
                r.push((dims[k].0.clone(), level.name.clone()));
            } else {
                r.push((dims[k].0.clone(), dims[k].1.clone()));
            }
            assert(pair_views(r@) =~= prev.push(pivot_dims(ds, level@)[k as int]));
            assert(pair_views(r@) =~= pivot_dims(ds, level@).take(k + 1));
            k = k + 1;
        }
        assert(pair_views(r@) =~= pivot_dims(ds, level@));
        r
    } else {
        let mut r = clone_pairs(dims);
        r.push((level.hierarchy.clone(), level.name.clone()));
        assert(pair_views(r@) =~= pivot_dims(ds, level@));
        r
    }
}

/// Build pivot proposals: swap in or add a dimension from the unvisited
/// frontier.
pub fn build_pivot_proposals(session: &Json, model: &Json, count: usize) -> (r: Vec<Proposal>)
    ensures
        proposal_views(r@) == ranked(spec_pivot(session@, model@, count as nat)),
{
    let measures = last_measures(session);
    let dims = last_dimensions(session);
    let model_name = last_model_name(session);
    let touched = touched_entities(session);
    let ghost ms = string_views(measures@);
    let ghost ds = pair_views(dims@);
    let ghost mn = model_name@;
    let mut proposals: Vec<Proposal> = Vec::new();
    if measures.len() == 0 {
        assert(proposal_views(proposals@) =~= ranked(spec_pivot(session@, model@, count as nat)));
        return proposals;
    }
    let unvisited = unvisited_levels(model, &touched);
    let candidates = non_time_levels(&unvisited);
    let ghost all = spec_pivot(session@, model@, count as nat);
    let ghost valid = mn.len() > 0;
    assert(level_views(candidates@) == pivot_candidates(session@, model@));
    let mut j: usize = 0;
    #[verifier::loop_isolation(false)]
    while j < candidates.len() && j < count
        invariant
            j <= candidates@.len(),
            j <= count,
            proposal_views(proposals@) == ranked(
                if valid {
                    all.take(j as int)
                } else {
                    Seq::empty()
                },
            ),
        decreases candidates@.len() - j,
    {
        let candidate = &candidates[j];
        let new_dims = pivot_dims_exec(&dims, candidate);
        let ti: Vec<Json> = Vec::new();
        assert(crate::json::views(ti@) =~= Seq::<JsonV>::empty());
        let mqo = mqo_json(&model_name, &measures, &new_dims, ti);
        proof {
            lemma_mqo_validates(mn, ms, pair_views(new_dims@), Seq::empty());
        }
        if validate(&mqo).is_ok() {
            let mut rationale = String::from_str("Pivot to adjacent dimension '");
            rationale.append(candidate.name.as_str());
            rationale.append("' (hierarchy: '");
            rationale.append(candidate.hierarchy.as_str());
            rationale.append("')");
            let ghost prev = proposal_views(proposals@);
            let p = make_proposal(proposals.len() + 1, "pivot", rationale, mqo);
            proposals.push(p);
            let ghost pd = pivot_draft(mn, ms, ds, candidate@);
            assert(all[j as int] == pd);
            assert(all.take(j + 1) =~= all.take(j as int).push(pd));
            proof {
                reveal_strlit("pivot");
                lemma_ranked_push(all.take(j as int), pd);
            }
            assert(proposal_views(proposals@) =~= prev.push(p@));
        }
        j = j + 1;
    }
    proof {
        if valid {
            assert(all.take(j as int) =~= all);
        } else {
            assert(all =~= Seq::<Draft>::empty());
        }
    }
    proposals
}

// ── Main entry point ───────────────────────────────────────────────────────

/// The strategy that runs for the requested one.
pub open spec fn spec_effective_strategy(
    session: JsonV,
    model: JsonV,
    summary: JsonV,
    strategy: Strategy,
) -> Strategy {
    match strategy {
        Strategy::Auto => spec_select_auto(session, model, summary),
        other => other,
    }
}

/// The drafts of the strategy that runs.
pub open spec fn spec_drafts(
    session: JsonV,
    model: JsonV,
    summary: JsonV,
    count: nat,
    strategy: Strategy,
) -> Seq<Draft> {
    match spec_effective_strategy(session, model, summary, strategy) {
        Strategy::Drill => spec_drill(session, model, count),
        Strategy::Compare => spec_compare(session, model, count),
        _ => spec_pivot(session, model, count),
    }
}

/// Whether the session has touched every level that the model offers.
pub open spec fn spec_exhausted(session: JsonV, model: JsonV) -> bool {
    spec_unvisited(model, spec_touched(session)).len() == 0
}

/// The output for a session: its id, and at most `count` proposals of the
/// strategy that runs, ranked 1, 2, ... in order; no proposals at all where
/// the session has touched every level that the model offers.
pub open spec fn spec_propose(
    session: JsonV,
    model: JsonV,
    summary: JsonV,
    count: nat,
    strategy: Strategy,
) -> OutputV {
    OutputV {
        session_id: spec_session_id(session),
        proposals: if spec_exhausted(session, model) {
            Seq::empty()
        } else {
            ranked(trunc(spec_drafts(session, model, summary, count, strategy), count))
        },
    }
}

/// Produce up to `count` ranked MQO proposals.
pub fn propose(session: &Json, model: &Json, summary: &Json, count: usize, strategy: Strategy) -> (out:
    Output)
    ensures
        out@ == spec_propose(session@, model@, summary@, count as nat, strategy),
{
    let session_id = session_id(session);

    // A session that has visited every level gets no proposal of any kind.
    let touched = touched_entities(session);
    let unvisited = unvisited_levels(model, &touched);
    if unvisited.len() == 0 {
        let proposals: Vec<Proposal> = Vec::new();
        proof {
            assert(level_views(unvisited@).len() == 0);
            assert(proposal_views(proposals@) =~= Seq::<ProposalV>::empty());
        }
        return Output { session_id, proposals };
    }
    assert(level_views(unvisited@).len() > 0);

    let effective_strategy = match strategy {
        Strategy::Auto => select_auto_strategy(session, model, summary),
        other => other,
    };

    let mut proposals = match effective_strategy {
        Strategy::Drill => build_drill_proposals(session, model, count),
        Strategy::Compare => build_compare_proposals(session, model, count),
        Strategy::Pivot => build_pivot_proposals(session, model, count),
        Strategy::Auto => build_pivot_proposals(session, model, count),
    };
    let ghost drafts = spec_drafts(session@, model@, summary@, count as nat, strategy);
    assert(proposal_views(proposals@) == ranked(drafts));

    // Enforce count ceiling (validation may have dropped some)
    proposals.truncate(count);
    assert(proposal_views(proposals@) =~= ranked(trunc(drafts, count as nat)));

    // Re-rank sequentially after truncation
    let mut i: usize = 0;
    while i < proposals.len()
        invariant
            i <= proposals@.len(),
            proposal_views(proposals@) == ranked(trunc(drafts, count as nat)),
        decreases proposals@.len() - i,
    {
        let ghost before = proposals@;
        assert(proposal_views(before).len() == before.len());
        assert(ranked(trunc(drafts, count as nat)).len() == before.len());
        assert(ranked(trunc(drafts, count as nat))[i as int].rank == i + 1);
        assert(proposal_views(before)[i as int].rank == i + 1);
        proposals[i].rank = i + 1;
        assert(proposals@ =~= before);
        assert(proposal_views(proposals@) =~= ranked(trunc(drafts, count as nat)));
        i = i + 1;
    }

    Output { session_id, proposals }
}

} // verus!
