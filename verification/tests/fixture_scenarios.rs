//! The acceptance scenarios: drill, compare, validation, count, strategy
//! and an exhausted frontier, on a small sales model.

use mcp_next_query_proposer::json::{Json, JsonNumber};
use mcp_next_query_proposer::proposer;
use mcp_next_query_proposer::types::Strategy;
use mcp_next_query_proposer::validate;

fn s(t: &str) -> Json {
    Json::Str(t.to_string())
}

fn n(v: u64) -> Json {
    Json::Number(JsonNumber::PosInt(v))
}

fn arr(items: Vec<Json>) -> Json {
    Json::Array(items)
}

fn obj(entries: Vec<(&str, Json)>) -> Json {
    Json::Object(entries.into_iter().map(|(k, v)| (k.to_string(), v)).collect())
}

fn level(hier: &str, name: &str, depth: u64) -> Json {
    obj(vec![
        ("unique_name", s(&format!("{hier}.{name}"))),
        ("name", s(name)),
        ("depth", n(depth)),
    ])
}

fn model() -> Json {
    obj(vec![
        (
            "measures",
            arr(vec![
                obj(vec![("unique_name", s("sales.revenue")), ("label", s("Revenue"))]),
                obj(vec![("unique_name", s("sales.units")), ("label", s("Units Sold"))]),
            ]),
        ),
        (
            "hierarchies",
            arr(vec![
                obj(vec![
                    ("unique_name", s("geo.store")),
                    ("is_time", Json::Bool(false)),
                    (
                        "levels",
                        arr(vec![
                            level("geo.store", "Store Region", 1),
                            level("geo.store", "Store State", 2),
                            level("geo.store", "Store City", 3),
                        ]),
                    ),
                ]),
                obj(vec![
                    ("unique_name", s("product.category")),
                    ("is_time", Json::Bool(false)),
                    (
                        "levels",
                        arr(vec![
                            level("product.category", "Category", 1),
                            level("product.category", "Subcategory", 2),
                        ]),
                    ),
                ]),
                obj(vec![
                    ("unique_name", s("time.calendar")),
                    ("is_time", Json::Bool(true)),
                    (
                        "levels",
                        arr(vec![
                            level("time.calendar", "Year", 1),
                            level("time.calendar", "Quarter", 2),
                            level("time.calendar", "Month", 3),
                        ]),
                    ),
                ]),
            ]),
        ),
    ])
}

fn mqo(level_name: &str, time_intelligence: Vec<Json>) -> Json {
    obj(vec![(
        "mqo",
        obj(vec![
            ("model", s("sales")),
            ("measures", arr(vec![obj(vec![("unique_name", s("sales.revenue"))])])),
            (
                "dimensions",
                arr(vec![obj(vec![("hierarchy", s("geo.store")), ("level", s(level_name))])]),
            ),
            ("filters", arr(vec![])),
            ("time_intelligence", arr(time_intelligence)),
        ]),
    )])
}

fn session(id: &str, history: Vec<Json>, touched: &[&str]) -> Json {
    obj(vec![
        ("session_id", s(id)),
        ("mqo_history", arr(history)),
        ("touched_entities", arr(touched.iter().map(|t| s(t)).collect())),
    ])
}

fn summary(distinct: u64) -> Json {
    obj(vec![
        ("row_count", n(500)),
        ("stats", obj(vec![("geo.store.Store Region", obj(vec![("distinct", n(distinct))]))])),
    ])
}

fn load_fixture(name: &str) -> Json {
    match name {
        "model.json" => model(),
        "session_drill.json" => session(
            "sess-drill-001",
            vec![mqo("Store Region", vec![])],
            &["sales.revenue", "geo.store.Store Region"],
        ),
        "session_compare.json" => session(
            "sess-compare-001",
            vec![mqo("Store Region", vec![])],
            &["sales.revenue", "geo.store.Store Region"],
        ),
        "session_pivot.json" => session(
            "sess-pivot-001",
            vec![
                mqo("Store Region", vec![]),
                mqo("Store State", vec![obj(vec![("op", s("prior_period"))])]),
            ],
            &["sales.revenue", "geo.store.Store Region", "geo.store.Store State"],
        ),
        "session_exhausted.json" => session(
            "sess-exhausted-001",
            vec![mqo("Store City", vec![obj(vec![("op", s("prior_period"))])])],
            &[
                "sales.revenue",
                "sales.units",
                "geo.store.Store Region",
                "geo.store.Store State",
                "geo.store.Store City",
                "product.category.Category",
                "product.category.Subcategory",
                "time.calendar.Year",
                "time.calendar.Quarter",
                "time.calendar.Month",
            ],
        ),
        "summary_high_cardinality.json" => summary(52),
        "summary_low_cardinality.json" => summary(4),
        other => panic!("failed to read fixture {other}"),
    }
}

fn text(v: &Json, key: &str) -> Option<String> {
    v.str_field(key).cloned()
}

#[test]
fn ac1_drill_produces_store_state() {
    let session = load_fixture("session_drill.json");
    let model = load_fixture("model.json");
    let summary = load_fixture("summary_high_cardinality.json");

    let output = proposer::propose(&session, &model, &summary, 3, Strategy::Drill);

    assert!(!output.proposals.is_empty(), "expected at least one proposal");

    let drill = output
        .proposals
        .iter()
        .find(|p| p.strategy == "drill")
        .expect("expected a drill proposal");

    let dims = drill.mqo.array_field("dimensions").expect("dimensions must be an array");
    let has_store_state = dims.iter().any(|d| text(d, "level").as_deref() == Some("Store State"));
    assert!(
        has_store_state,
        "expected 'Store State' in drill proposal dimensions, got: {dims:?}"
    );

    assert!(
        drill.rationale.contains("Store State") || drill.rationale.contains("drill"),
        "rationale should reference the drill target"
    );
}

#[test]
fn ac1_drill_mqo_has_same_measures() {
    let session = load_fixture("session_drill.json");
    let model = load_fixture("model.json");
    let summary = load_fixture("summary_high_cardinality.json");

    let output = proposer::propose(&session, &model, &summary, 3, Strategy::Drill);

    for p in &output.proposals {
        let measures = p.mqo.array_field("measures").expect("measures array");
        assert!(!measures.is_empty(), "proposals must have measures");
        let has_revenue =
            measures.iter().any(|m| text(m, "unique_name").as_deref() == Some("sales.revenue"));
        assert!(has_revenue, "expected sales.revenue in proposal measures");
    }
}

#[test]
fn ac2_compare_adds_prior_period() {
    let session = load_fixture("session_compare.json");
    let model = load_fixture("model.json");
    let summary = load_fixture("summary_low_cardinality.json");

    let output = proposer::propose(&session, &model, &summary, 3, Strategy::Compare);

    assert!(!output.proposals.is_empty(), "expected at least one compare proposal");

    let compare = output
        .proposals
        .iter()
        .find(|p| p.strategy == "compare")
        .expect("expected a compare proposal");

    let ti = compare
        .mqo
        .array_field("time_intelligence")
        .expect("time_intelligence must be an array");

    assert!(!ti.is_empty(), "compare proposal must have time_intelligence entries");

    let has_prior_period = ti.iter().any(|t| text(t, "op").as_deref() == Some("prior_period"));
    assert!(has_prior_period, "expected prior_period time_intelligence op, got: {ti:?}");
}

#[test]
fn ac2_auto_selects_compare_when_no_time_intel() {
    let session = load_fixture("session_compare.json");
    let model = load_fixture("model.json");
    let summary = load_fixture("summary_low_cardinality.json");

    let output = proposer::propose(&session, &model, &summary, 3, Strategy::Auto);

    let has_compare = output.proposals.iter().any(|p| p.strategy == "compare");
    assert!(has_compare, "auto should select compare when no time intel and low cardinality");
}

#[test]
fn ac3_all_proposals_are_valid() {
    let session = load_fixture("session_drill.json");
    let model = load_fixture("model.json");
    let summary = load_fixture("summary_high_cardinality.json");

    for strategy in [Strategy::Drill, Strategy::Compare, Strategy::Pivot, Strategy::Auto] {
        let output = proposer::propose(&session, &model, &summary, 5, strategy);
        for p in &output.proposals {
            assert!(
                validate::validate(&p.mqo).is_ok(),
                "proposal with strategy={} failed validation: {:?}\nmqo={:?}",
                p.strategy,
                validate::validate(&p.mqo),
                p.mqo
            );
        }
    }
}

#[test]
fn ac3_validate_rejects_missing_model() {
    let bad = obj(vec![
        ("measures", arr(vec![obj(vec![("unique_name", s("x"))])])),
        ("dimensions", arr(vec![])),
    ]);
    assert!(validate::validate(&bad).is_err());
}

#[test]
fn ac3_validate_rejects_empty_measures() {
    let bad = obj(vec![("model", s("sales")), ("measures", arr(vec![])), ("dimensions", arr(vec![]))]);
    assert!(validate::validate(&bad).is_err());
}

#[test]
fn ac3_validate_accepts_minimal_mqo() {
    let good = obj(vec![
        ("model", s("sales")),
        ("measures", arr(vec![obj(vec![("unique_name", s("sales.revenue"))])])),
        ("dimensions", arr(vec![])),
    ]);
    assert!(validate::validate(&good).is_ok());
}

#[test]
fn ac4_count_ceiling_respected() {
    let session = load_fixture("session_drill.json");
    let model = load_fixture("model.json");
    let summary = load_fixture("summary_high_cardinality.json");

    for count in [1usize, 2, 3, 5] {
        let output = proposer::propose(&session, &model, &summary, count, Strategy::Drill);
        assert!(
            output.proposals.len() <= count,
            "count={count}: got {} proposals, expected ≤ {count}",
            output.proposals.len()
        );
    }
}

#[test]
fn ac4_count_max_clamped_at_5_by_caller() {
    let session = load_fixture("session_drill.json");
    let model = load_fixture("model.json");
    let summary = load_fixture("summary_high_cardinality.json");

    let output = proposer::propose(&session, &model, &summary, 5, Strategy::Auto);
    assert!(output.proposals.len() <= 5);
}

#[test]
fn ac4_no_duplicate_proposals() {
    let session = load_fixture("session_drill.json");
    let model = load_fixture("model.json");
    let summary = load_fixture("summary_high_cardinality.json");

    let output = proposer::propose(&session, &model, &summary, 5, Strategy::Auto);

    let rationales: Vec<_> = output.proposals.iter().map(|p| &p.rationale).collect();
    let unique_count = rationales.iter().collect::<std::collections::HashSet<_>>().len();
    assert_eq!(rationales.len(), unique_count, "duplicate proposals detected");
}

#[test]
fn ac5_strategy_drill_only() {
    let session = load_fixture("session_drill.json");
    let model = load_fixture("model.json");
    let summary = load_fixture("summary_high_cardinality.json");

    let output = proposer::propose(&session, &model, &summary, 5, Strategy::Drill);
    for p in &output.proposals {
        assert_eq!(p.strategy, "drill", "expected only drill, got: {}", p.strategy);
    }
}

#[test]
fn ac5_strategy_compare_only() {
    let session = load_fixture("session_compare.json");
    let model = load_fixture("model.json");
    let summary = load_fixture("summary_low_cardinality.json");

    let output = proposer::propose(&session, &model, &summary, 5, Strategy::Compare);
    for p in &output.proposals {
        assert_eq!(p.strategy, "compare", "expected only compare, got: {}", p.strategy);
    }
}

#[test]
fn ac5_strategy_pivot_only() {
    let session = load_fixture("session_pivot.json");
    let model = load_fixture("model.json");
    let summary = load_fixture("summary_low_cardinality.json");

    let output = proposer::propose(&session, &model, &summary, 5, Strategy::Pivot);
    for p in &output.proposals {
        assert_eq!(p.strategy, "pivot", "expected only pivot, got: {}", p.strategy);
    }
}

#[test]
fn ac5_auto_produces_proposals() {
    let session = load_fixture("session_drill.json");
    let model = load_fixture("model.json");
    let summary = load_fixture("summary_high_cardinality.json");

    let output = proposer::propose(&session, &model, &summary, 3, Strategy::Auto);
    assert!(
        !output.proposals.is_empty(),
        "auto strategy should produce proposals for a non-exhausted session"
    );
}

#[test]
fn ac6_exhausted_session_returns_empty_proposals() {
    let session = load_fixture("session_exhausted.json");
    let model = load_fixture("model.json");
    let summary = load_fixture("summary_high_cardinality.json");

    let output = proposer::propose(&session, &model, &summary, 3, Strategy::Auto);
    assert_eq!(output.proposals.len(), 0, "fully-explored session should yield no proposals");
}

#[test]
fn ac6_exhausted_returns_correct_session_id() {
    let session = load_fixture("session_exhausted.json");
    let model = load_fixture("model.json");
    let summary = load_fixture("summary_high_cardinality.json");

    let output = proposer::propose(&session, &model, &summary, 3, Strategy::Auto);
    assert_eq!(output.session_id, "sess-exhausted-001");
}

#[test]
fn ac6_exhausted_drill_also_empty() {
    let session = load_fixture("session_exhausted.json");
    let model = load_fixture("model.json");
    let summary = load_fixture("summary_high_cardinality.json");

    for strategy in [Strategy::Drill, Strategy::Pivot] {
        let output = proposer::propose(&session, &model, &summary, 3, strategy);
        assert_eq!(
            output.proposals.len(),
            0,
            "exhausted session with {:?} should yield no proposals",
            strategy
        );
    }
}
