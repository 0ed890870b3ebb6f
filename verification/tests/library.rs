use agent_decision_log::decision::{Decision, DecisionLog};
use agent_decision_log::id::{format_id, id_at, new_id};
use agent_decision_log::jsonl::{frame_lines, split_records};
use serde_json::Value;

fn add_plain(log: &mut DecisionLog, options: &[&str], chosen: &str) -> String {
    log.add(
        options.iter().map(|s| s.to_string()).collect(),
        chosen.to_string(),
        "why".to_string(),
        Value::Object(serde_json::Map::new()),
    )
}

fn decision_with_id(id: &str) -> Decision {
    Decision {
        id: id.to_string(),
        timestamp: std::time::SystemTime::UNIX_EPOCH,
        options: vec!["a".to_string()],
        chosen: "a".to_string(),
        rationale: "r".to_string(),
        outcome: None,
        meta: Value::Null,
    }
}

fn owned(lines: &[&str]) -> Vec<String> {
    lines.iter().map(|s| s.to_string()).collect()
}

#[test]
fn format_id_pads_time_and_sequence() {
    assert_eq!(format_id(255, 10), "dec_00000000000000ff_0000000a");
    assert_eq!(format_id(0, 0), "dec_0000000000000000_00000000");
}

#[test]
fn format_id_sequence_may_exceed_eight_digits() {
    assert_eq!(format_id(u64::MAX, 0x1_2345_6789), "dec_ffffffffffffffff_123456789");
    assert_eq!(format_id(0x0123_4567_89ab_cdef, u64::MAX), "dec_0123456789abcdef_ffffffffffffffff");
}

#[test]
fn id_at_before_epoch_uses_zero() {
    assert_eq!(id_at(None, 3), "dec_0000000000000000_00000003");
}

#[test]
fn id_at_cuts_nanoseconds_to_64_bits() {
    let nanos: u128 = (1u128 << 64) + 0x2a;
    assert_eq!(id_at(Some(nanos), 1), "dec_000000000000002a_00000001");
}

#[test]
fn new_id_carries_the_sequence_number() {
    let id = new_id(0xbeef);
    assert_eq!(id.len(), "dec_".len() + 16 + 1 + 8);
    assert!(id.starts_with("dec_"));
    assert!(id.ends_with("_0000beef"));
}

#[test]
fn add_uses_the_position_as_sequence() {
    let mut log = DecisionLog::new();
    let a = add_plain(&mut log, &["x"], "x");
    let b = add_plain(&mut log, &["x"], "x");
    assert!(a.ends_with("_00000000"));
    assert!(b.ends_with("_00000001"));
}

#[test]
fn add_stores_every_field() {
    let mut log = DecisionLog::new();
    let meta = Value::from(42);
    let id = log.add(owned(&["p", "q"]), "q".to_string(), "because".to_string(), meta.clone());
    let d = log.last().unwrap();
    assert_eq!(d.id, id);
    assert_eq!(d.options, owned(&["p", "q"]));
    assert_eq!(d.chosen, "q");
    assert_eq!(d.rationale, "because");
    assert_eq!(d.outcome, None);
    assert_eq!(d.meta, meta);
}

#[test]
fn set_outcome_changes_only_the_first_match() {
    let mut log = DecisionLog::new();
    log.decisions.push(decision_with_id("same"));
    log.decisions.push(decision_with_id("other"));
    log.decisions.push(decision_with_id("same"));
    assert!(log.set_outcome("same", "done".to_string()));
    assert_eq!(log.decisions[0].outcome.as_deref(), Some("done"));
    assert_eq!(log.decisions[1].outcome, None);
    assert_eq!(log.decisions[2].outcome, None);
}

#[test]
fn find_by_id_returns_the_first_match() {
    let mut log = DecisionLog::new();
    log.decisions.push(decision_with_id("other"));
    let mut first = decision_with_id("same");
    first.rationale = "first".to_string();
    log.decisions.push(first);
    log.decisions.push(decision_with_id("same"));
    assert_eq!(log.find_by_id("same").unwrap().rationale, "first");
}

#[test]
fn hallucinated_lists_unlisted_choices_in_order() {
    let mut log = DecisionLog::new();
    add_plain(&mut log, &["search_web", "ask_user"], "search_web");
    let c = add_plain(&mut log, &["a", "b"], "c");
    let z = add_plain(&mut log, &[], "z");
    let found = log.hallucinated();
    assert_eq!(found.len(), 2);
    assert_eq!(found[0].id, c);
    assert_eq!(found[1].id, z);
}

#[test]
fn pending_shrinks_when_an_outcome_is_set() {
    let mut log = DecisionLog::new();
    add_plain(&mut log, &["search_web", "ask_user"], "search_web");
    let id = add_plain(&mut log, &["a", "b"], "c");
    assert_eq!(log.pending().len(), 2);
    log.set_outcome(&id, "recovered".to_string());
    assert_eq!(log.pending().len(), 1);
    log.set_outcome(&id, "again".to_string());
    assert_eq!(log.pending().len(), 1);
    assert_eq!(log.hallucinated().len(), 1);
}

#[test]
fn iter_walks_in_insertion_order() {
    let mut log = DecisionLog::new();
    let a = add_plain(&mut log, &["a"], "a");
    let b = add_plain(&mut log, &["b"], "b");
    let ids: Vec<&str> = log.iter().map(|d| d.id.as_str()).collect();
    assert_eq!(ids, vec![a.as_str(), b.as_str()]);
}

#[test]
fn is_empty_after_add_is_false() {
    let mut log = DecisionLog::new();
    add_plain(&mut log, &["a"], "a");
    assert!(!log.is_empty());
}

#[test]
fn frame_lines_ends_every_line() {
    assert_eq!(frame_lines(&owned(&["{\"a\":1}", "{}"])), "{\"a\":1}\n{}\n");
    assert_eq!(frame_lines(&Vec::new()), "");
}

#[test]
fn split_records_skips_blank_lines() {
    assert_eq!(split_records("\n\n{\"x\":1}\n\n"), owned(&["{\"x\":1}"]));
    assert_eq!(split_records("  \t\n{}\n \u{3000}\u{a0}\n"), owned(&["{}"]));
}

#[test]
fn split_records_handles_line_endings() {
    assert_eq!(split_records("a\r\nb\nc"), owned(&["a", "b", "c"]));
    assert_eq!(split_records("a\r"), owned(&["a\r"]));
    assert_eq!(split_records("a\r\r\n"), owned(&["a\r"]));
    assert_eq!(split_records(""), Vec::<String>::new());
    assert_eq!(split_records("\r\n"), Vec::<String>::new());
}

#[test]
fn split_records_keeps_inner_white_space() {
    assert_eq!(split_records(" x y \n"), owned(&[" x y "]));
}

#[test]
fn frame_then_split_gives_the_lines_back() {
    let lines = owned(&["{\"id\":\"dec_1\"}", "{\"id\":\"dec_2\",\"outcome\":\"ok\"}", "[1, 2]"]);
    assert_eq!(split_records(&frame_lines(&lines)), lines);
}

#[test]
fn for_loop_over_a_log_reference() {
    let mut log = DecisionLog::new();
    add_plain(&mut log, &["a"], "a");
    add_plain(&mut log, &["b"], "b");
    let mut chosen = Vec::new();
    for d in &log {
        chosen.push(d.chosen.clone());
    }
    assert_eq!(chosen, owned(&["a", "b"]));
}

#[test]
fn added_decision_is_pending_and_last() {
    let mut log = DecisionLog::new();
    let first = add_plain(&mut log, &["a"], "a");
    log.set_outcome(&first, "ok".to_string());
    let second = add_plain(&mut log, &["b"], "b");
    let pending = log.pending();
    assert_eq!(pending.len(), 1);
    assert_eq!(pending[0].id, second);
    assert!(log.hallucinated().is_empty());
}

#[test]
fn ids_sort_by_time_stamp() {
    assert!(format_id(1, 0xffff_ffff_ffff) < format_id(2, 0));
    assert!(format_id(0xff, 5) < format_id(0x100, 1));
    assert!(id_at(Some(10), 9) < id_at(Some(11), 0));
}

#[test]
fn log_only_grows_over_adds_and_outcomes() {
    let mut log = DecisionLog::new();
    let a = add_plain(&mut log, &["a"], "a");
    let before = log.clone();
    add_plain(&mut log, &["b"], "c");
    log.set_outcome(&a, "done".to_string());
    add_plain(&mut log, &["d"], "d");
    assert_eq!(log.len(), 3);
    let (old, new) = (&before.decisions[0], &log.decisions[0]);
    assert_eq!(old.id, new.id);
    assert_eq!(old.timestamp, new.timestamp);
    assert_eq!(old.options, new.options);
    assert_eq!(old.chosen, new.chosen);
    assert_eq!(old.rationale, new.rationale);
    assert_eq!(old.meta, new.meta);
    assert_eq!(new.outcome.as_deref(), Some("done"));
}

#[test]
fn add_recorded_keeps_the_given_id_and_time() {
    let mut log = DecisionLog::new();
    let t = std::time::SystemTime::UNIX_EPOCH + std::time::Duration::from_secs(7);
    let id = new_id(41);
    log.add_recorded(id.clone(), t, owned(&["a", "b"]), "b".to_string(), "r".to_string(), Value::from(1));
    let d = log.last().unwrap();
    assert_eq!(d.id, id);
    assert!(id.ends_with("_00000029"));
    assert_eq!(d.timestamp, t);
    assert_eq!(d.options, owned(&["a", "b"]));
    assert_eq!(d.chosen, "b");
    assert_eq!(d.outcome, None);
    assert_eq!(d.meta, Value::from(1));
}
