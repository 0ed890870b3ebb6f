use agent_decision_log::{Decision, DecisionLog};
use serde_json::Value;
use std::time::SystemTime;

fn strings(items: &[&str]) -> Vec<String> {
    items.iter().map(|s| s.to_string()).collect()
}

fn empty_meta() -> Value {
    Value::Object(serde_json::Map::new())
}

fn meta_with(key: &str, value: Value) -> Value {
    let mut m = serde_json::Map::new();
    m.insert(key.to_string(), value);
    Value::Object(m)
}

fn sample(log: &mut DecisionLog) -> String {
    log.add(
        vec!["a".to_string(), "b".to_string()],
        "a".to_string(),
        "a is cheaper".to_string(),
        meta_with("turn", Value::from(0)),
    )
}

#[test]
fn record_creates_entry() {
    let mut log = DecisionLog::new();
    let id = log.add(strings(&["a", "b"]), "a".to_string(), "because a".to_string(), empty_meta());
    let e = log.find_by_id(&id).unwrap();
    assert_eq!(e.chosen, "a");
    assert_eq!(e.options, vec!["a", "b"]);
    assert_eq!(e.rationale, "because a");
    assert!(e.outcome.is_none());
}

#[test]
fn len_increments() {
    let mut log = DecisionLog::new();
    assert_eq!(log.len(), 0);
    log.add(strings(&["x"]), "x".to_string(), "r".to_string(), empty_meta());
    log.add(strings(&["y"]), "y".to_string(), "r".to_string(), empty_meta());
    assert_eq!(log.len(), 2);
}

#[test]
fn unique_ids() {
    let mut log = DecisionLog::new();
    let a = log.add(strings(&["x"]), "x".to_string(), "r".to_string(), empty_meta());
    let b = log.add(strings(&["x"]), "x".to_string(), "r".to_string(), empty_meta());
    assert_ne!(a, b);
}

#[test]
fn chose_listed_option_detects_hallucination() {
    let mut log = DecisionLog::new();
    log.add(strings(&["a", "b"]), "c".to_string(), "made up".to_string(), empty_meta());
    assert!(!log.last().unwrap().chose_listed_option());
}

#[test]
fn new_log_is_empty() {
    let log = DecisionLog::new();
    assert!(log.is_empty());
    assert_eq!(log.len(), 0);
    assert!(log.last().is_none());
}

#[test]
fn default_log_is_empty() {
    let log: DecisionLog = Default::default();
    assert_eq!(log.len(), 0);
}

#[test]
fn add_returns_unique_id() {
    let mut log = DecisionLog::new();
    let id1 = sample(&mut log);
    let id2 = sample(&mut log);
    assert_ne!(id1, id2);
    assert_eq!(log.len(), 2);
}

#[test]
fn add_preserves_insertion_order() {
    let mut log = DecisionLog::new();
    let id1 = log.add(vec!["x".to_string()], "x".to_string(), "first".to_string(), empty_meta());
    let id2 = log.add(vec!["y".to_string()], "y".to_string(), "second".to_string(), empty_meta());
    assert_eq!(log.decisions[0].id, id1);
    assert_eq!(log.decisions[1].id, id2);
}

#[test]
fn find_by_id_hits_and_misses() {
    let mut log = DecisionLog::new();
    let id = sample(&mut log);
    assert!(log.find_by_id(&id).is_some());
    assert!(log.find_by_id("not-a-real-id").is_none());
}

#[test]
fn last_returns_most_recent() {
    let mut log = DecisionLog::new();
    sample(&mut log);
    let id2 = sample(&mut log);
    assert_eq!(log.last().unwrap().id, id2);
}

#[test]
fn set_outcome_updates_existing() {
    let mut log = DecisionLog::new();
    let id = sample(&mut log);
    assert!(log.set_outcome(&id, "ran fine".to_string()));
    assert_eq!(log.find_by_id(&id).unwrap().outcome.as_deref(), Some("ran fine"));
}

#[test]
fn set_outcome_overwrites_previous() {
    let mut log = DecisionLog::new();
    let id = sample(&mut log);
    log.set_outcome(&id, "first".to_string());
    log.set_outcome(&id, "second".to_string());
    assert_eq!(log.find_by_id(&id).unwrap().outcome.as_deref(), Some("second"));
}

#[test]
fn set_outcome_returns_false_for_missing() {
    let mut log = DecisionLog::new();
    assert!(!log.set_outcome("nope", "x".to_string()));
}

#[test]
fn outcome_starts_as_none() {
    let mut log = DecisionLog::new();
    let id = sample(&mut log);
    assert!(log.find_by_id(&id).unwrap().outcome.is_none());
}

#[test]
fn chose_listed_option_true_when_in_options() {
    let mut log = DecisionLog::new();
    log.add(
        vec!["a".to_string(), "b".to_string()],
        "b".to_string(),
        "picked b".to_string(),
        empty_meta(),
    );
    assert!(log.last().unwrap().chose_listed_option());
}

#[test]
fn chose_listed_option_false_when_hallucinated() {
    let mut log = DecisionLog::new();
    log.add(
        vec!["a".to_string(), "b".to_string()],
        "c".to_string(),
        "made up c".to_string(),
        empty_meta(),
    );
    assert!(!log.last().unwrap().chose_listed_option());
}

#[test]
fn add_accepts_string_and_str() {
    let mut log = DecisionLog::new();
    log.add(strings(&["a"]), String::from("a"), String::from("rationale"), empty_meta());
    log.add(
        vec!["b".to_string()],
        "b".to_string(),
        "r2".to_string(),
        empty_meta(),
    );
    assert_eq!(log.len(), 2);
}

#[test]
fn meta_round_trips_complex_json() {
    let mut log = DecisionLog::new();
    let mut tool_args = serde_json::Map::new();
    tool_args.insert("q".to_string(), Value::from("hello"));
    tool_args.insert("n".to_string(), Value::from(5));
    let mut m = serde_json::Map::new();
    m.insert("turn".to_string(), Value::from(7));
    m.insert("tool_args".to_string(), Value::Object(tool_args));
    m.insert(
        "tags".to_string(),
        Value::Array(vec![Value::from("retry"), Value::from("fallback")]),
    );
    let meta = Value::Object(m);
    let id = log.add(strings(&["x"]), "x".to_string(), "r".to_string(), meta.clone());
    assert_eq!(log.find_by_id(&id).unwrap().meta, meta);
}

#[test]
fn id_format_is_dec_prefix() {
    let mut log = DecisionLog::new();
    let id = sample(&mut log);
    assert!(id.starts_with("dec_"));
}

#[test]
fn decision_clone_round_trip() {
    let mut log = DecisionLog::new();
    sample(&mut log);
    let d1 = log.decisions[0].clone();
    let d2: Decision = d1.clone();
    assert_eq!(d1, d2);
}

#[test]
fn log_clone_round_trip() {
    let mut log = DecisionLog::new();
    sample(&mut log);
    sample(&mut log);
    let log2 = log.clone();
    assert_eq!(log, log2);
}

#[test]
fn timestamp_is_set_on_add() {
    let before = SystemTime::now();
    let mut log = DecisionLog::new();
    sample(&mut log);
    let after = SystemTime::now();
    let t = log.decisions[0].timestamp;
    assert!(t >= before);
    assert!(t <= after);
}

#[test]
fn empty_options_are_allowed() {
    let mut log = DecisionLog::new();
    log.add(Vec::<String>::new(), "fallback".to_string(), "no options".to_string(), empty_meta());
    assert_eq!(log.last().unwrap().options.len(), 0);
    assert!(!log.last().unwrap().chose_listed_option());
}
