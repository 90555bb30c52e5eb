//! The library's functions on small, hand-built inputs: lookups, session
//! and model readers, the three strategies, the selection rule and the
//! renderings.

use mcp_next_query_proposer::cli::{format_human, parse_format, parse_strategy};
use mcp_next_query_proposer::json::{Json, JsonNumber};
use mcp_next_query_proposer::model::{
    all_levels, all_measures, child_level, coarsest_level, first_time_hierarchy, is_level_touched,
    unvisited_levels,
};
use mcp_next_query_proposer::proposer::{
    build_compare_proposals, build_drill_proposals, build_pivot_proposals, propose,
    select_auto_strategy,
};
use mcp_next_query_proposer::session::{
    has_time_intelligence, last_dimensions, last_measures, last_model_name, last_mqo, session_id,
    touched_entities,
};
use mcp_next_query_proposer::text::decimal_text;
use mcp_next_query_proposer::types::{Format, Output, Proposal, Strategy};
use mcp_next_query_proposer::validate::validate;

fn s(t: &str) -> Json {
    Json::Str(t.to_string())
}

fn n(v: u64) -> Json {
    Json::Number(JsonNumber::PosInt(v))
}

fn arr(items: Vec<Json>) -> Json {
    Json::Array(items)
}

fn obj(entries: Vec<(&str, Json)>) -> Json {
    Json::Object(entries.into_iter().map(|(k, v)| (k.to_string(), v)).collect())
}

fn level(hier: &str, name: &str, depth: u64) -> Json {
    obj(vec![
        ("unique_name", s(&format!("{hier}.{name}"))),
        ("name", s(name)),
        ("depth", n(depth)),
    ])
}

fn model() -> Json {
    obj(vec![
        (
            "measures",
            arr(vec![
                obj(vec![("unique_name", s("sales.revenue"))]),
                obj(vec![("label", s("no name"))]),
                obj(vec![("unique_name", s("sales.units"))]),
            ]),
        ),
        (
            "hierarchies",
            arr(vec![
                obj(vec![
                    ("unique_name", s("geo.store")),
                    (
                        "levels",
                        arr(vec![
                            level("geo.store", "Store Region", 1),
                            level("geo.store", "Store State", 2),
                            level("geo.store", "Store City", 3),
                        ]),
                    ),
                ]),
                obj(vec![
                    ("unique_name", s("product.category")),
                    (
                        "levels",
                        arr(vec![level("product.category", "Category", 1)]),
                    ),
                ]),
                obj(vec![
                    ("unique_name", s("time.calendar")),
                    ("is_time", Json::Bool(true)),
                    (
                        "levels",
                        arr(vec![
                            level("time.calendar", "Quarter", 2),
                            level("time.calendar", "Year", 1),
                        ]),
                    ),
                ]),
            ]),
        ),
    ])
}

fn mqo(model_name: &str, dims: Vec<(&str, &str)>, ti: Vec<Json>) -> Json {
    obj(vec![
        ("model", s(model_name)),
        ("measures", arr(vec![obj(vec![("unique_name", s("sales.revenue"))])])),
        (
            "dimensions",
            arr(dims
                .into_iter()
                .map(|(h, l)| obj(vec![("hierarchy", s(h)), ("level", s(l))]))
                .collect()),
        ),
        ("filters", arr(vec![])),
        ("time_intelligence", arr(ti)),
    ])
}

fn session(id: &str, last: Json, touched: &[&str]) -> Json {
    obj(vec![
        ("session_id", s(id)),
        ("mqo_history", arr(vec![obj(vec![("mqo", last)])])),
        ("touched_entities", arr(touched.iter().map(|t| s(t)).collect())),
    ])
}

fn summary(distinct: u64) -> Json {
    obj(vec![("stats", obj(vec![("geo.store.Store Region", obj(vec![("distinct", n(distinct))]))]))])
}

fn text(v: &Json, key: &str) -> Option<String> {
    v.str_field(key).cloned()
}

fn dim_levels(p: &Proposal) -> Vec<(String, String)> {
    p.mqo
        .array_field("dimensions")
        .unwrap()
        .iter()
        .map(|d| (text(d, "hierarchy").unwrap(), text(d, "level").unwrap()))
        .collect()
}

fn pair(h: &str, l: &str) -> (String, String) {
    (h.to_string(), l.to_string())
}

#[test]
fn lookup_takes_the_first_entry_of_a_key() {
    let v = obj(vec![("k", s("first")), ("k", s("second"))]);
    assert_eq!(text(&v, "k").as_deref(), Some("first"));
    assert!(v.field("missing").is_none());
    assert!(arr(vec![]).field("k").is_none());
    assert_eq!(n(7).as_u64(), Some(7));
    assert_eq!(Json::Number(JsonNumber::NegInt(-3)).as_u64(), None);
    assert_eq!(Json::Number(JsonNumber::Decimal("1.5".to_string())).as_u64(), None);
    assert_eq!(Json::Bool(true).as_bool(), Some(true));
    assert_eq!(v.text_field("nothing"), "");
}

#[test]
fn session_readers() {
    let last = mqo("sales", vec![("geo.store", "Store Region")], vec![]);
    let sess = obj(vec![
        ("mqo_history", arr(vec![obj(vec![("mqo", mqo("old", vec![], vec![s("x")]))]), obj(vec![("mqo", last)])])),
        ("touched_entities", arr(vec![s("a"), n(3), s("b"), s("a")])),
    ]);
    assert_eq!(session_id(&sess), "unknown");
    assert_eq!(touched_entities(&sess), vec!["a".to_string(), "b".to_string()]);
    assert_eq!(last_model_name(&sess), "sales");
    assert_eq!(last_measures(&sess), vec!["sales.revenue".to_string()]);
    assert_eq!(last_dimensions(&sess), vec![pair("geo.store", "Store Region")]);
    assert!(has_time_intelligence(&sess));
    assert!(!has_time_intelligence(&session("x", mqo("m", vec![], vec![]), &[])));
}

#[test]
fn last_mqo_of_an_entry_without_one_is_null() {
    let sess = obj(vec![("mqo_history", arr(vec![obj(vec![("other", n(1))])]))]);
    assert!(matches!(last_mqo(&sess), Some(Json::Null)));
    assert!(last_mqo(&obj(vec![("mqo_history", arr(vec![]))])).is_none());
    assert!(last_mqo(&obj(vec![])).is_none());
    assert_eq!(last_model_name(&sess), "");
    assert!(last_measures(&sess).is_empty());
}

#[test]
fn last_dimensions_skip_incomplete_entries() {
    let last = obj(vec![(
        "dimensions",
        arr(vec![
            obj(vec![("hierarchy", s("h1"))]),
            obj(vec![("hierarchy", s("h2")), ("level", s("l2"))]),
            obj(vec![("level", s("l3"))]),
        ]),
    )]);
    let sess = session("id", last, &[]);
    assert_eq!(last_dimensions(&sess), vec![pair("h2", "l2")]);
}

#[test]
fn model_levels_and_measures() {
    let m = model();
    let levels = all_levels(&m);
    let names: Vec<&str> = levels.iter().map(|l| l.name.as_str()).collect();
    assert_eq!(names, vec!["Store Region", "Store State", "Store City", "Category", "Quarter", "Year"]);
    assert_eq!(levels[0].hierarchy, "geo.store");
    assert!(!levels[0].is_time);
    assert!(levels[5].is_time);
    assert_eq!(all_measures(&m), vec!["sales.revenue".to_string(), "sales.units".to_string()]);

    let odd = obj(vec![(
        "hierarchies",
        arr(vec![obj(vec![(
            "levels",
            arr(vec![obj(vec![("unique_name", s("u"))]), obj(vec![("name", s("no unique"))])]),
        )])]),
    )]);
    let levels = all_levels(&odd);
    assert_eq!(levels.len(), 1);
    assert_eq!(levels[0].depth, 1);
    assert_eq!(levels[0].name, "");
    assert_eq!(levels[0].hierarchy, "");
}

#[test]
fn child_levels() {
    let m = model();
    let child = child_level(&m, "geo.store", "Store Region").unwrap();
    assert_eq!(text(child, "name").as_deref(), Some("Store State"));
    let by_unique = child_level(&m, "geo.store", "geo.store.Store State").unwrap();
    assert_eq!(text(by_unique, "name").as_deref(), Some("Store City"));
    assert!(child_level(&m, "geo.store", "Store City").is_none());
    assert!(child_level(&m, "nowhere", "Store Region").is_none());

    let deepest = obj(vec![(
        "hierarchies",
        arr(vec![obj(vec![
            ("unique_name", s("h")),
            ("levels", arr(vec![obj(vec![("name", s("L")), ("depth", n(u64::MAX))]), obj(vec![("name", s("Z")), ("depth", n(0))])])),
        ])]),
    )]);
    assert!(child_level(&deepest, "h", "L").is_none());
}

#[test]
fn time_hierarchy_and_coarsest_level() {
    let m = model();
    assert_eq!(first_time_hierarchy(&m).as_deref(), Some("time.calendar"));
    assert_eq!(coarsest_level(&m, "time.calendar").as_deref(), Some("Year"));
    assert_eq!(coarsest_level(&m, "geo.store").as_deref(), Some("Store Region"));
    assert!(coarsest_level(&m, "nowhere").is_none());

    let unnamed = obj(vec![(
        "hierarchies",
        arr(vec![
            obj(vec![("is_time", Json::Bool(true))]),
            obj(vec![("unique_name", s("t2")), ("is_time", Json::Bool(true))]),
        ]),
    )]);
    assert!(first_time_hierarchy(&unnamed).is_none());

    let no_depths = obj(vec![(
        "hierarchies",
        arr(vec![obj(vec![("unique_name", s("h")), ("levels", arr(vec![obj(vec![("name", s("L"))])]))])]),
    )]);
    assert!(coarsest_level(&no_depths, "h").is_none());
}

#[test]
fn unvisited_levels_leave_out_touched_ones() {
    let m = model();
    let touched = vec!["geo.store.Store Region".to_string(), "time.calendar.Year".to_string()];
    let names: Vec<String> = unvisited_levels(&m, &touched).into_iter().map(|l| l.unique_name).collect();
    assert_eq!(
        names,
        vec![
            "geo.store.Store State".to_string(),
            "geo.store.Store City".to_string(),
            "product.category.Category".to_string(),
            "time.calendar.Quarter".to_string(),
        ]
    );
}

#[test]
fn auto_selection_rule() {
    let m = model();
    let fresh = session("s", mqo("sales", vec![("geo.store", "Store Region")], vec![]), &[]);
    assert_eq!(select_auto_strategy(&fresh, &m, &summary(11)), Strategy::Drill);
    assert_eq!(select_auto_strategy(&fresh, &m, &summary(10)), Strategy::Compare);
    let with_ti = session("s", mqo("sales", vec![], vec![obj(vec![("op", s("yoy"))])]), &[]);
    assert_eq!(select_auto_strategy(&with_ti, &m, &summary(10)), Strategy::Pivot);
    let no_time = obj(vec![("hierarchies", arr(vec![]))]);
    assert_eq!(select_auto_strategy(&fresh, &no_time, &summary(52)), Strategy::Pivot);
}

#[test]
fn drill_deepens_every_matching_dimension() {
    let m = model();
    let sess = session(
        "s",
        mqo("sales", vec![("geo.store", "Store Region"), ("product.category", "Category"), ("geo.store", "Store Region")], vec![]),
        &[],
    );
    let ps = build_drill_proposals(&sess, &m, 5);
    assert_eq!(ps.len(), 2);
    assert_eq!(ps[0].rank, 1);
    assert_eq!(ps[1].rank, 2);
    assert_eq!(ps[0].rationale, "High cardinality on 'Store Region'; drill to 'Store State'");
    assert_eq!(
        dim_levels(&ps[0]),
        vec![pair("geo.store", "Store State"), pair("product.category", "Category"), pair("geo.store", "Store State")]
    );
    assert_eq!(ps[1].strategy, "drill");
    let one = build_drill_proposals(&sess, &m, 1);
    assert_eq!(one.len(), 1);
    assert!(build_drill_proposals(&sess, &m, 0).is_empty());
}

#[test]
fn drill_falls_back_to_unvisited_levels() {
    let m = model();
    let sess = session(
        "s",
        mqo("sales", vec![("geo.store", "Store City")], vec![]),
        &["geo.store.Store Region", "geo.store.Store State", "geo.store.Store City"],
    );
    let ps = build_drill_proposals(&sess, &m, 2);
    assert_eq!(ps.len(), 2);
    assert_eq!(ps[0].rationale, "Unvisited level 'Category' in hierarchy 'product.category'");
    assert_eq!(dim_levels(&ps[0]), vec![pair("product.category", "Category")]);
    assert_eq!(ps[1].rationale, "Unvisited level 'Quarter' in hierarchy 'time.calendar'");
}

#[test]
fn drill_skips_touched_children() {
    let m = model();
    let sess = session("s", mqo("sales", vec![("geo.store", "Store Region")], vec![]), &["geo.store.Store State"]);
    let ps = build_drill_proposals(&sess, &m, 1);
    assert_eq!(ps.len(), 1);
    assert!(ps[0].rationale.starts_with("Unvisited level 'Store Region'"));
}

#[test]
fn no_model_name_or_no_measures_gives_no_proposals() {
    let m = model();
    let nameless = session("s", mqo("", vec![("geo.store", "Store Region")], vec![]), &[]);
    assert!(build_drill_proposals(&nameless, &m, 3).is_empty());
    assert!(build_compare_proposals(&nameless, &m, 3).is_empty());
    assert!(build_pivot_proposals(&nameless, &m, 3).is_empty());
    let no_measures = session("s", obj(vec![("model", s("sales"))]), &[]);
    assert!(build_drill_proposals(&no_measures, &m, 3).is_empty());
    assert!(build_compare_proposals(&no_measures, &m, 3).is_empty());
    assert!(build_pivot_proposals(&no_measures, &m, 3).is_empty());
}

#[test]
fn compare_proposes_prior_period_then_year_over_year() {
    let m = model();
    let sess = session("s", mqo("sales", vec![("geo.store", "Store Region")], vec![]), &[]);
    let ps = build_compare_proposals(&sess, &m, 3);
    assert_eq!(ps.len(), 2);
    assert_eq!(
        ps[0].rationale,
        "No time intelligence in prior MQOs; add prior_period comparison on 'time.calendar'"
    );
    let ti0 = ps[0].mqo.array_field("time_intelligence").unwrap();
    assert_eq!(text(&ti0[0], "op").as_deref(), Some("prior_period"));
    assert_eq!(dim_levels(&ps[0]), vec![pair("geo.store", "Store Region")]);
    assert_eq!(ps[1].rationale, "Year-over-year comparison using 'time.calendar'");
    assert_eq!(dim_levels(&ps[1]), vec![pair("geo.store", "Store Region"), pair("time.calendar", "Year")]);
    assert_eq!(build_compare_proposals(&sess, &m, 1).len(), 1);
    assert!(build_compare_proposals(&sess, &obj(vec![]), 3).is_empty());
}

#[test]
fn compare_defaults_to_year() {
    let m = obj(vec![(
        "hierarchies",
        arr(vec![obj(vec![("unique_name", s("t")), ("is_time", Json::Bool(true))])]),
    )]);
    let sess = session("s", mqo("sales", vec![], vec![]), &[]);
    let ps = build_compare_proposals(&sess, &m, 2);
    assert_eq!(dim_levels(&ps[1]), vec![pair("t", "Year")]);
}

#[test]
fn pivot_swaps_or_adds_a_dimension() {
    let m = model();
    let sess = session(
        "s",
        mqo("sales", vec![("geo.store", "Store Region")], vec![]),
        &["geo.store.Store Region", "geo.store.Store State"],
    );
    let ps = build_pivot_proposals(&sess, &m, 5);
    assert_eq!(ps.len(), 2);
    assert_eq!(ps[0].rationale, "Pivot to adjacent dimension 'Store City' (hierarchy: 'geo.store')");
    assert_eq!(dim_levels(&ps[0]), vec![pair("geo.store", "Store City")]);
    assert_eq!(dim_levels(&ps[1]), vec![pair("geo.store", "Store Region"), pair("product.category", "Category")]);
    assert_eq!(ps[1].rank, 2);
}

#[test]
fn propose_ranks_and_echoes_session_id() {
    let m = model();
    let sess = session("abc-123", mqo("sales", vec![("geo.store", "Store Region")], vec![]), &[]);
    let out = propose(&sess, &m, &summary(2), 5, Strategy::Pivot);
    assert_eq!(out.session_id, "abc-123");
    for (i, p) in out.proposals.iter().enumerate() {
        assert_eq!(p.rank, i + 1);
        assert_eq!(p.strategy, "pivot");
        assert!(validate(&p.mqo).is_ok());
        assert_eq!(text(&p.mqo, "model").as_deref(), Some("sales"));
    }
    assert_eq!(out.proposals.len(), 4);
    assert_eq!(propose(&sess, &m, &summary(2), 2, Strategy::Pivot).proposals.len(), 2);
}

#[test]
fn touched_levels_are_not_proposed_again() {
    let m = model();
    let touched = ["geo.store.Store State", "product.category.Category"];
    let sess = session("s", mqo("sales", vec![("geo.store", "Store Region")], vec![]), &touched);
    for strategy in [Strategy::Drill, Strategy::Pivot] {
        for p in propose(&sess, &m, &summary(52), 5, strategy).proposals {
            assert!(!p.rationale.contains("'Store State'"));
            assert!(!p.rationale.contains("'Category'"));
        }
    }
}

#[test]
fn exhausted_session_gets_nothing_under_any_strategy() {
    let m = model();
    let all = [
        "geo.store.Store Region",
        "geo.store.Store State",
        "geo.store.Store City",
        "product.category.Category",
        "time.calendar.Quarter",
        "time.calendar.Year",
    ];
    let sess = session("s", mqo("sales", vec![("geo.store", "Store City")], vec![]), &all);
    for strategy in [Strategy::Drill, Strategy::Compare, Strategy::Pivot, Strategy::Auto] {
        let out = propose(&sess, &m, &summary(52), 3, strategy);
        assert!(out.proposals.is_empty(), "{:?} proposed on an exhausted session", strategy);
        assert_eq!(out.session_id, "s");
    }
    // The builder alone still compares; `propose` holds it back.
    assert_eq!(build_compare_proposals(&sess, &m, 3).len(), 1);
}

#[test]
fn compare_leaves_out_a_touched_time_level() {
    let m = model();
    let sess = session(
        "s",
        mqo("sales", vec![("geo.store", "Store Region")], vec![]),
        &["time.calendar.Year"],
    );
    let ps = propose(&sess, &m, &summary(2), 5, Strategy::Compare).proposals;
    assert_eq!(ps.len(), 1);
    assert_eq!(
        ps[0].rationale,
        "No time intelligence in prior MQOs; add prior_period comparison on 'time.calendar'"
    );
    assert_eq!(dim_levels(&ps[0]), vec![pair("geo.store", "Store Region")]);
    // A touched finer time level does not hold back the coarsest one.
    let finer = session(
        "s",
        mqo("sales", vec![("geo.store", "Store Region")], vec![]),
        &["time.calendar.Quarter"],
    );
    let ps = propose(&finer, &m, &summary(2), 5, Strategy::Compare).proposals;
    assert_eq!(ps.len(), 2);
    assert_eq!(dim_levels(&ps[1]), vec![pair("geo.store", "Store Region"), pair("time.calendar", "Year")]);
}

#[test]
fn is_level_touched_reads_levels_by_hierarchy_and_name() {
    let m = model();
    let touched = vec!["time.calendar.Year".to_string()];
    assert!(is_level_touched(&m, &touched, &"time.calendar".to_string(), &"Year".to_string()));
    assert!(!is_level_touched(&m, &touched, &"time.calendar".to_string(), &"Quarter".to_string()));
    assert!(!is_level_touched(&m, &touched, &"geo.store".to_string(), &"Year".to_string()));
}

#[test]
fn decimal_text_of_counts() {
    assert_eq!(decimal_text(0), "0");
    assert_eq!(decimal_text(7), "7");
    assert_eq!(decimal_text(1234567), "1234567");
}

#[test]
fn strategy_and_format_names() {
    for st in [Strategy::Drill, Strategy::Compare, Strategy::Pivot, Strategy::Auto] {
        assert_eq!(Strategy::from_str(&st.to_string()), Ok(st));
        assert_eq!(parse_strategy(&st.to_string()), Ok(st));
    }
    assert_eq!(Strategy::Compare.to_string(), "compare");
    assert_eq!(
        parse_strategy("sideways"),
        Err("unknown strategy: 'sideways'; expected drill|compare|pivot|auto".to_string())
    );
    for f in [Format::Json, Format::Human] {
        assert_eq!(parse_format(&f.to_string()), Ok(f));
    }
    assert_eq!(Format::Human.to_string(), "human");
    assert_eq!(parse_format("xml"), Err("unknown format: 'xml'; expected json|human".to_string()));
}

#[test]
fn human_rendering() {
    let out = Output {
        session_id: "abc".to_string(),
        proposals: vec![
            Proposal { rank: 1, strategy: "drill".to_string(), rationale: "r1".to_string(), mqo: Json::Null },
            Proposal { rank: 12, strategy: "pivot".to_string(), rationale: "r2".to_string(), mqo: Json::Null },
        ],
    };
    assert_eq!(
        format_human(&out),
        "session_id: abc\n2 proposal(s):\n  [1] strategy=drill — r1\n  [12] strategy=pivot — r2"
    );
    let empty = Output { session_id: "x".to_string(), proposals: vec![] };
    assert_eq!(format_human(&empty), "session_id: x\n0 proposal(s):");
}

#[test]
fn quoted_level_names_can_repeat_a_rationale() {
    let m = obj(vec![(
        "hierarchies",
        arr(vec![
            obj(vec![
                ("unique_name", s("z")),
                ("levels", arr(vec![obj(vec![("unique_name", s("z.1")), ("name", s("x' (hierarchy: 'y")), ("depth", n(1))])])),
            ]),
            obj(vec![
                ("unique_name", s("y' (hierarchy: 'z")),
                ("levels", arr(vec![obj(vec![("unique_name", s("w.1")), ("name", s("x")), ("depth", n(1))])])),
            ]),
        ]),
    )]);
    let sess = session("s", mqo("sales", vec![], vec![]), &[]);
    let ps = propose(&sess, &m, &summary(2), 5, Strategy::Pivot).proposals;
    assert_eq!(ps.len(), 2);
    assert_eq!(ps[0].rationale, ps[1].rationale);
    assert!(ps[0].rationale.contains("x' (hierarchy: 'y"));

    // Without quotes in the names, the same shape gives two rationales.
    let plain = obj(vec![(
        "hierarchies",
        arr(vec![
            obj(vec![("unique_name", s("z")), ("levels", arr(vec![level("z", "x1", 1)]))]),
            obj(vec![("unique_name", s("y")), ("levels", arr(vec![level("y", "x2", 1)]))]),
        ]),
    )]);
    let ps = propose(&sess, &plain, &summary(2), 5, Strategy::Pivot).proposals;
    assert_eq!(ps.len(), 2);
    assert_ne!(ps[0].rationale, ps[1].rationale);
}

#[test]
fn touched_entities_keep_first_occurrence_order() {
    let sess = obj(vec![("touched_entities", arr(vec![s("b"), s("a"), s("b"), s("c")]))]);
    assert_eq!(touched_entities(&sess), vec!["b".to_string(), "a".to_string(), "c".to_string()]);
}
