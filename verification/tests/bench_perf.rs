//! Proposal generation for a 500-entity model with a 20-query session
//! history completes in under 100ms.

use mcp_next_query_proposer::json::{Json, JsonNumber};
use mcp_next_query_proposer::proposer;
use mcp_next_query_proposer::types::Strategy;
use std::time::Instant;

fn s(t: &str) -> Json {
    Json::Str(t.to_string())
}

fn n(v: u64) -> Json {
    Json::Number(JsonNumber::PosInt(v))
}

fn obj(entries: Vec<(&str, Json)>) -> Json {
    Json::Object(entries.into_iter().map(|(k, v)| (k.to_string(), v)).collect())
}

/// Build a model with `hier_count` hierarchies, each with `levels_per_hier` levels.
fn build_large_model(hier_count: usize, levels_per_hier: usize) -> Json {
    let mut measures: Vec<Json> = Vec::new();
    for i in 0..10 {
        measures.push(obj(vec![
            ("unique_name", s(&format!("sales.measure_{i}"))),
            ("label", s(&format!("Measure {i}"))),
        ]));
    }

    let mut hierarchies: Vec<Json> = Vec::new();
    for h in 0..hier_count {
        let is_time = h == 0;
        let mut levels: Vec<Json> = Vec::new();
        for l in 0..levels_per_hier {
            levels.push(obj(vec![
                ("unique_name", s(&format!("dim{h}.level{l}"))),
                ("name", s(&format!("Level{l}"))),
                ("depth", n(l as u64 + 1)),
            ]));
        }
        hierarchies.push(obj(vec![
            ("unique_name", s(&format!("dim{h}"))),
            ("is_time", Json::Bool(is_time)),
            ("levels", Json::Array(levels)),
        ]));
    }

    obj(vec![("measures", Json::Array(measures)), ("hierarchies", Json::Array(hierarchies))])
}

/// Build a session with `query_count` MQOs, touching the given entities.
fn build_large_session(query_count: usize, touched: &[String]) -> Json {
    let mut history: Vec<Json> = Vec::new();
    for _i in 0..query_count {
        history.push(obj(vec![(
            "mqo",
            obj(vec![
                ("model", s("sales")),
                ("measures", Json::Array(vec![obj(vec![("unique_name", s("sales.measure_0"))])])),
                (
                    "dimensions",
                    Json::Array(vec![obj(vec![("hierarchy", s("dim1")), ("level", s("Level0"))])]),
                ),
                ("filters", Json::Array(vec![])),
                ("time_intelligence", Json::Array(vec![])),
            ]),
        )]));
    }

    let touched_json: Vec<Json> = touched.iter().map(|t| s(t)).collect();

    obj(vec![
        ("session_id", s("bench-session")),
        ("mqo_history", Json::Array(history)),
        ("touched_entities", Json::Array(touched_json)),
    ])
}

#[test]
fn ac7_perf_under_100ms() {
    // Build a ~500-entity model: 50 hierarchies × 10 levels = 500 levels + 10 measures
    let model = build_large_model(50, 10);

    // Touch only the first 5 entities so there's plenty of frontier
    let touched: Vec<String> = (0..5).map(|i| format!("dim0.level{i}")).collect();

    let session = build_large_session(20, &touched);

    let summary = obj(vec![
        ("row_count", n(1000)),
        ("columns", Json::Array(vec![])),
        ("sample", Json::Array(vec![])),
        ("sample_cap", n(20)),
        (
            "stats",
            obj(vec![(
                "dim1.level0",
                obj(vec![
                    ("min", Json::Null),
                    ("max", Json::Null),
                    ("sum", Json::Null),
                    ("mean", Json::Null),
                    ("distinct", n(52)),
                    ("top_k", Json::Null),
                ]),
            )]),
        ),
        ("notes", Json::Array(vec![])),
    ]);

    let start = Instant::now();
    let output = proposer::propose(&session, &model, &summary, 5, Strategy::Auto);
    let elapsed = start.elapsed();

    println!("proposals: {}, elapsed: {:?}", output.proposals.len(), elapsed);

    assert!(
        elapsed.as_millis() < 100,
        "proposal generation took {}ms, expected < 100ms",
        elapsed.as_millis()
    );
}
