//! Structural validation of query objects.

use mcp_next_query_proposer::json::Json;
use mcp_next_query_proposer::validate::{validate, ValidationError};

fn s(t: &str) -> Json {
    Json::Str(t.to_string())
}

fn obj(entries: Vec<(&str, Json)>) -> Json {
    Json::Object(entries.into_iter().map(|(k, v)| (k.to_string(), v)).collect())
}

fn revenue() -> Json {
    Json::Array(vec![obj(vec![("unique_name", s("sales.revenue"))])])
}

#[test]
fn valid_mqo() {
    let mqo = obj(vec![("model", s("sales")), ("measures", revenue()), ("dimensions", Json::Array(vec![]))]);
    assert!(validate(&mqo).is_ok());
}

#[test]
fn missing_model() {
    let mqo = obj(vec![("measures", revenue()), ("dimensions", Json::Array(vec![]))]);
    assert_eq!(validate(&mqo), Err(ValidationError::MissingModel));
}

#[test]
fn empty_measures() {
    let mqo = obj(vec![
        ("model", s("sales")),
        ("measures", Json::Array(vec![])),
        ("dimensions", Json::Array(vec![])),
    ]);
    assert_eq!(validate(&mqo), Err(ValidationError::EmptyMeasures));
}

#[test]
fn missing_dimensions() {
    let mqo = obj(vec![("model", s("sales")), ("measures", revenue())]);
    assert_eq!(validate(&mqo), Err(ValidationError::MissingDimensions));
}

#[test]
fn validate_reports_empty_model() {
    let mqo = obj(vec![("model", s("")), ("measures", revenue()), ("dimensions", Json::Array(vec![]))]);
    assert_eq!(validate(&mqo), Err(ValidationError::EmptyModel));
    let not_text = obj(vec![("model", Json::Bool(true)), ("measures", revenue()), ("dimensions", Json::Array(vec![]))]);
    assert_eq!(validate(&not_text), Err(ValidationError::EmptyModel));
}

#[test]
fn validate_reports_missing_measures() {
    let none = obj(vec![("model", s("sales")), ("dimensions", Json::Array(vec![]))]);
    assert_eq!(validate(&none), Err(ValidationError::MissingMeasures));
    let not_array = obj(vec![("model", s("sales")), ("measures", s("x")), ("dimensions", Json::Array(vec![]))]);
    assert_eq!(validate(&not_array), Err(ValidationError::MissingMeasures));
}

#[test]
fn validate_reports_first_invalid_measure() {
    let measures = Json::Array(vec![
        obj(vec![("unique_name", s("sales.revenue"))]),
        obj(vec![("label", s("Units"))]),
        Json::Null,
    ]);
    let mqo = obj(vec![("model", s("sales")), ("measures", measures), ("dimensions", Json::Array(vec![]))]);
    assert_eq!(validate(&mqo), Err(ValidationError::InvalidMeasureEntry(1)));
}

#[test]
fn validate_reports_dimensions_not_array() {
    let mqo = obj(vec![("model", s("sales")), ("measures", revenue()), ("dimensions", s("geo"))]);
    assert_eq!(validate(&mqo), Err(ValidationError::MissingDimensions));
}

#[test]
fn validate_rejects_non_object() {
    assert_eq!(validate(&Json::Array(vec![])), Err(ValidationError::MissingModel));
}

#[test]
fn validation_messages() {
    assert_eq!(ValidationError::MissingModel.to_string(), "MQO missing 'model' field");
    assert_eq!(ValidationError::EmptyModel.to_string(), "MQO 'model' is empty string");
    assert_eq!(ValidationError::MissingMeasures.to_string(), "MQO missing 'measures' array");
    assert_eq!(ValidationError::EmptyMeasures.to_string(), "MQO 'measures' array is empty");
    assert_eq!(ValidationError::MissingDimensions.to_string(), "MQO missing 'dimensions' array");
    assert_eq!(
        ValidationError::InvalidMeasureEntry(12).to_string(),
        "MQO measures[12] missing 'unique_name'"
    );
}
