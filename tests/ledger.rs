use aigov_audit::bundle::{
    bundle_for_run, bundle_sha256, canonical_bundle_json, canonicalize_events, collect_events_for_run,
    find_model_artifact_path, stable_event_order,
};
use aigov_audit::chain::{
    append_record, compute_record_hash, read_last_hash, verify_chain, BreakKind, StoredRecord,
};
use aigov_audit::digest::sha256_hex;
use aigov_audit::event::{event_json, EvidenceEvent};
use aigov_audit::json::{canonical_json, get_str, to_json_string, JsonValue};
use aigov_audit::ledger::submit;
use aigov_audit::policy::{
    enforce, has_event_for_run, has_passed_evaluation, latest_human_approval_decision,
    reject_duplicate_event_id, Decision, Rejection,
};

fn s(x: &str) -> JsonValue {
    JsonValue::Str(x.to_string())
}

fn num(x: &str) -> JsonValue {
    JsonValue::Number(x.to_string())
}

fn obj(members: Vec<(&str, JsonValue)>) -> JsonValue {
    JsonValue::Object(members.into_iter().map(|(k, v)| (k.to_string(), v)).collect())
}

fn ev(id: &str, ty: &str, ts: &str, run: &str, payload: JsonValue) -> EvidenceEvent {
    EvidenceEvent {
        event_id: id.to_string(),
        event_type: ty.to_string(),
        ts_utc: ts.to_string(),
        actor: "alice".to_string(),
        system: "ml".to_string(),
        run_id: run.to_string(),
        payload,
    }
}

fn data_registered(id: &str, ts: &str, run: &str) -> EvidenceEvent {
    ev(id, "data_registered", ts, run, obj(vec![("dataset", s("D")), ("dataset_fingerprint", s("abc"))]))
}

fn evaluation(id: &str, ts: &str, run: &str, passed: bool) -> EvidenceEvent {
    ev(
        id,
        "evaluation_reported",
        ts,
        run,
        obj(vec![
            ("metric", s("acc")),
            ("value", num("0.9")),
            ("threshold", num("0.8")),
            ("passed", JsonValue::Bool(passed)),
        ]),
    )
}

fn approval(id: &str, ts: &str, run: &str, decision: &str) -> EvidenceEvent {
    ev(
        id,
        "human_approved",
        ts,
        run,
        obj(vec![
            ("scope", s("model_promoted")),
            ("decision", s(decision)),
            ("approver", s("alice")),
            ("justification", s("ok")),
        ]),
    )
}

fn promotion(id: &str, ts: &str, run: &str, path: &str) -> EvidenceEvent {
    ev(id, "model_promoted", ts, run, obj(vec![("artifact_path", s(path))]))
}

fn copy_event(e: &EvidenceEvent) -> EvidenceEvent {
    EvidenceEvent {
        event_id: e.event_id.clone(),
        event_type: e.event_type.clone(),
        ts_utc: e.ts_utc.clone(),
        actor: e.actor.clone(),
        system: e.system.clone(),
        run_id: e.run_id.clone(),
        payload: copy_json(&e.payload),
    }
}

fn copy_json(v: &JsonValue) -> JsonValue {
    match v {
        JsonValue::Null => JsonValue::Null,
        JsonValue::Bool(b) => JsonValue::Bool(*b),
        JsonValue::Number(n) => JsonValue::Number(n.clone()),
        JsonValue::Str(x) => JsonValue::Str(x.clone()),
        JsonValue::Array(items) => JsonValue::Array(items.iter().map(copy_json).collect()),
        JsonValue::Object(ms) => {
            JsonValue::Object(ms.iter().map(|(k, x)| (k.clone(), copy_json(x))).collect())
        }
    }
}

#[test]
fn record_hash_matches_formula() {
    assert_eq!(
        compute_record_hash("GENESIS", "{}"),
        "9903b0adc5291fed90f8bf50e9f11772fc4949daa48e6f899c919bd58cfd3989"
    );
    assert_eq!(sha256_hex(b"GENESIS\n{}"), compute_record_hash("GENESIS", "{}"));
}

#[test]
fn event_json_is_stable_text() {
    let e = ev(
        "e1",
        "data_registered",
        "2024-01-01T00:00:00Z",
        "r1",
        obj(vec![("dataset_fingerprint", s("abc")), ("dataset", s("D"))]),
    );
    let text = event_json(&e);
    assert_eq!(
        text,
        "{\"event_id\":\"e1\",\"event_type\":\"data_registered\",\"ts_utc\":\"2024-01-01T00:00:00Z\",\"actor\":\"alice\",\"system\":\"ml\",\"run_id\":\"r1\",\"payload\":{\"dataset\":\"D\",\"dataset_fingerprint\":\"abc\"}}"
    );
    let mut log: Vec<StoredRecord> = Vec::new();
    let rec = append_record(&mut log, &e);
    assert_eq!(rec.prev_hash, "GENESIS");
    assert_eq!(rec.event_json, text);
    assert_eq!(rec.record_hash, "f242d3364b79d5e9dd0973b7e84acc0ddc59062736db56bb514578b25a097fcf");
}

#[test]
fn appending_chains_records() {
    let mut log: Vec<StoredRecord> = Vec::new();
    assert_eq!(read_last_hash(&log), "GENESIS");
    let a = append_record(&mut log, &data_registered("e1", "t1", "r1"));
    let b = append_record(&mut log, &evaluation("e2", "t2", "r1", true));
    let c = append_record(&mut log, &approval("e3", "t3", "r1", "approve"));
    assert_eq!(log.len(), 3);
    assert_eq!(b.prev_hash, a.record_hash);
    assert_eq!(c.prev_hash, b.record_hash);
    assert_eq!(a.record_hash, compute_record_hash("GENESIS", &a.event_json));
    assert_eq!(b.record_hash, compute_record_hash(&a.record_hash, &b.event_json));
    assert_eq!(c.record_hash, compute_record_hash(&b.record_hash, &c.event_json));
    assert_eq!(read_last_hash(&log), c.record_hash);
    assert!(verify_chain(&log).is_ok());
}

#[test]
fn empty_log_verifies() {
    let log: Vec<StoredRecord> = Vec::new();
    assert!(verify_chain(&log).is_ok());
}

#[test]
fn tampered_event_is_detected() {
    let mut log: Vec<StoredRecord> = Vec::new();
    append_record(&mut log, &data_registered("e1", "t1", "r1"));
    append_record(&mut log, &evaluation("e2", "t2", "r1", true));
    append_record(&mut log, &approval("e3", "t3", "r1", "approve"));
    log[1].event_json = log[1].event_json.replace("acc", "acd");
    let err = verify_chain(&log).unwrap_err();
    assert_eq!(err.line, 2);
    assert_eq!(err.kind, BreakKind::RecordHash);
    assert_eq!(err.actual, log[1].record_hash);
    assert_eq!(err.expected, compute_record_hash(&log[1].prev_hash, &log[1].event_json));
}

#[test]
fn tampered_prev_hash_is_detected() {
    let mut log: Vec<StoredRecord> = Vec::new();
    append_record(&mut log, &data_registered("e1", "t1", "r1"));
    append_record(&mut log, &evaluation("e2", "t2", "r1", true));
    let good_prev = log[1].prev_hash.clone();
    log[1].prev_hash = "0".repeat(64);
    let err = verify_chain(&log).unwrap_err();
    assert_eq!(err.line, 2);
    assert_eq!(err.kind, BreakKind::PrevHash);
    assert_eq!(err.expected, good_prev);
}

#[test]
fn tampered_record_hash_is_detected() {
    let mut log: Vec<StoredRecord> = Vec::new();
    append_record(&mut log, &data_registered("e1", "t1", "r1"));
    append_record(&mut log, &evaluation("e2", "t2", "r1", true));
    log[0].record_hash = "f".repeat(64);
    let err = verify_chain(&log).unwrap_err();
    assert_eq!(err.line, 1);
    assert_eq!(err.kind, BreakKind::RecordHash);
}

#[test]
fn canonical_json_ignores_key_order() {
    let a = obj(vec![("b", num("1")), ("a", obj(vec![("y", JsonValue::Null), ("x", JsonValue::Bool(true))]))]);
    let b = obj(vec![("a", obj(vec![("x", JsonValue::Bool(true)), ("y", JsonValue::Null)])), ("b", num("1"))]);
    assert_eq!(canonical_json(&a), "{\"a\":{\"x\":true,\"y\":null},\"b\":1}");
    assert_eq!(canonical_json(&a), canonical_json(&b));
    assert_eq!(canonical_json(&a), canonical_json(&a));
}

#[test]
fn canonical_json_keeps_array_order() {
    let v = JsonValue::Array(vec![num("3"), obj(vec![("z", s("q\"t")), ("k", num("2"))]), num("1")]);
    assert_eq!(canonical_json(&v), "[3,{\"k\":2,\"z\":\"q\\\"t\"},1]");
    assert_eq!(to_json_string(&v), "[3,{\"z\":\"q\\\"t\",\"k\":2},1]");
}

#[test]
fn json_lookup_takes_strings() {
    let v = obj(vec![("a", s("x")), ("b", num("2"))]);
    assert_eq!(get_str(&v, "a").map(|x| x.as_str()), Some("x"));
    assert_eq!(get_str(&v, "b"), None);
    assert_eq!(get_str(&v, "c"), None);
}

#[test]
fn model_trained_requires_data_registration() {
    let mut history: Vec<EvidenceEvent> = Vec::new();
    let trained = ev("t", "model_trained", "t2", "r1", obj(vec![]));
    assert_eq!(enforce(&trained, &history), Err(Rejection::NoDataRegistered));
    history.push(data_registered("d", "t1", "r2"));
    assert_eq!(enforce(&trained, &history), Err(Rejection::NoDataRegistered));
    assert!(!has_event_for_run("data_registered", "r1", &history));
    history.push(data_registered("d", "t1", "r1"));
    assert!(has_event_for_run("data_registered", "r1", &history));
    assert_eq!(enforce(&trained, &history), Ok(()));
}

#[test]
fn payload_shapes_are_checked() {
    let h: Vec<EvidenceEvent> = Vec::new();
    assert_eq!(enforce(&data_registered("d", "t", "r"), &h), Ok(()));
    let bad = ev("d", "data_registered", "t", "r", obj(vec![("dataset", s("")), ("dataset_fingerprint", s("x"))]));
    assert_eq!(enforce(&bad, &h), Err(Rejection::DataRegisteredShape));
    assert_eq!(enforce(&evaluation("e", "t", "r", false), &h), Ok(()));
    let bad_eval = ev("e", "evaluation_reported", "t", "r", obj(vec![("metric", s("acc")), ("value", s("0.9")), ("threshold", num("1")), ("passed", JsonValue::Bool(true))]));
    assert_eq!(enforce(&bad_eval, &h), Err(Rejection::EvaluationShape));
    assert_eq!(enforce(&approval("a", "t", "r", "reject"), &h), Ok(()));
    assert_eq!(enforce(&approval("a", "t", "r", "maybe"), &h), Err(Rejection::ApprovalShape));
    let other = ev("o", "note", "t", "r", JsonValue::Null);
    assert_eq!(enforce(&other, &h), Ok(()));
}

#[test]
fn latest_approval_wins() {
    let mut h = vec![evaluation("e", "t1", "r1", true), approval("a1", "t2", "r1", "approve"), approval("a2", "t3", "r1", "reject")];
    let p = promotion("p", "t4", "r1", "/m");
    assert_eq!(latest_human_approval_decision("r1", &h), Some(Decision::Reject));
    assert_eq!(enforce(&p, &h), Err(Rejection::ApprovalRejected));
    h = vec![evaluation("e", "t1", "r1", true), approval("a1", "t2", "r1", "reject"), approval("a2", "t3", "r1", "approve")];
    assert_eq!(enforce(&p, &h), Ok(()));
}

#[test]
fn promotion_needs_passed_evaluation_and_approval() {
    let p = promotion("p", "t4", "r1", "/m");
    let h = vec![evaluation("e", "t1", "r1", false), approval("a1", "t2", "r1", "approve")];
    assert!(!has_passed_evaluation("r1", &h));
    assert_eq!(enforce(&p, &h), Err(Rejection::NoPassedEvaluation));
    let h = vec![evaluation("e", "t1", "r1", true)];
    assert!(has_passed_evaluation("r1", &h));
    assert_eq!(latest_human_approval_decision("r1", &h), None);
    assert_eq!(enforce(&p, &h), Err(Rejection::NoApproval));
}

#[test]
fn duplicate_event_id_is_a_conflict() {
    let h = vec![data_registered("d1", "t1", "r1")];
    assert_eq!(reject_duplicate_event_id(&data_registered("d1", "t2", "r1"), &h), Err(Rejection::DuplicateEvent));
    assert_eq!(reject_duplicate_event_id(&data_registered("d1", "t2", "r2"), &h), Ok(()));
    let mut log: Vec<StoredRecord> = Vec::new();
    let r = submit(&mut log, &h, &data_registered("d1", "t2", "r1"));
    assert_eq!(r.unwrap_err(), Rejection::DuplicateEvent);
    assert!(log.is_empty());
}

#[test]
fn example_run_is_promoted_and_bundled() {
    let mut log: Vec<StoredRecord> = Vec::new();
    let mut history: Vec<EvidenceEvent> = Vec::new();
    let events = vec![
        data_registered("e1", "2024-01-01T00:00:01Z", "r1"),
        evaluation("e2", "2024-01-01T00:00:02Z", "r1", true),
        approval("e3", "2024-01-01T00:00:03Z", "r1", "approve"),
        promotion("e4", "2024-01-01T00:00:04Z", "r1", "/models/r1"),
    ];
    for e in events {
        let rec = submit(&mut log, &history, &e).expect("accepted");
        assert_eq!(rec.record_hash, log[log.len() - 1].record_hash);
        history.push(e);
    }
    assert!(verify_chain(&log).is_ok());
    let run = collect_events_for_run(history, "r1");
    assert_eq!(run.len(), 4);
    assert_eq!(find_model_artifact_path(&run), Some("/models/r1".to_string()));
    let ids: Vec<&str> = run.iter().map(|e| e.event_id.as_str()).collect();
    assert_eq!(ids, vec!["e1", "e2", "e3", "e4"]);
}

#[test]
fn bundle_dedups_and_orders() {
    let events = vec![
        ev("b", "x", "t2", "r1", JsonValue::Null),
        ev("a", "x", "t1", "r1", JsonValue::Null),
        ev("b", "y", "t3", "r1", JsonValue::Null),
        ev("c", "x", "t1", "r1", JsonValue::Null),
        ev("a", "z", "t1", "r1", JsonValue::Null),
    ];
    let out = canonicalize_events(events);
    let got: Vec<(&str, &str)> = out.iter().map(|e| (e.event_id.as_str(), e.event_type.as_str())).collect();
    assert_eq!(got, vec![("c", "x"), ("a", "z"), ("b", "y")]);
    assert!(stable_event_order(&out[0], &out[1]));
    assert!(!stable_event_order(&out[2], &out[0]));
}

#[test]
fn collect_selects_run() {
    let h = vec![data_registered("d1", "t1", "r1"), data_registered("d2", "t1", "r2"), data_registered("d3", "t0", "r1")];
    let got: Vec<String> = collect_events_for_run(h, "r1").into_iter().map(|e| e.event_id).collect();
    assert_eq!(got, vec!["d3".to_string(), "d1".to_string()]);
}

#[test]
fn artifact_path_takes_last_nonempty() {
    let evs = vec![promotion("p1", "t1", "r", "/a"), promotion("p2", "t2", "r", ""), ev("x", "note", "t3", "r", JsonValue::Null)];
    assert_eq!(find_model_artifact_path(&evs), Some("/a".to_string()));
    let tail: Vec<EvidenceEvent> = evs[1..].iter().map(copy_event).collect();
    assert_eq!(find_model_artifact_path(&tail), None);
}

#[test]
fn bundle_digest_is_exact_and_stable() {
    let empty: Vec<EvidenceEvent> = Vec::new();
    assert_eq!(
        canonical_bundle_json("r1", "v1", "audit_log.jsonl", None, &empty),
        "{\"events\":[],\"log_path\":\"audit_log.jsonl\",\"model_artifact_path\":null,\"ok\":true,\"policy_version\":\"v1\",\"run_id\":\"r1\"}"
    );
    assert_eq!(
        bundle_sha256("r1", "v1", "audit_log.jsonl", None, &empty),
        "efed12eddff25edcf10722635270537b0be45b996f18bc732cb32ccb744d25a7"
    );
    let h1 = vec![data_registered("e1", "t1", "r1"), evaluation("e2", "t2", "r1", true)];
    let h2 = vec![evaluation("e2", "t2", "r1", true), data_registered("e1", "t1", "r1")];
    let b1 = collect_events_for_run(h1, "r1");
    let b2 = collect_events_for_run(h2, "r1");
    let d1 = bundle_sha256("r1", "v1", "log", Some("/m"), &b1);
    let d2 = bundle_sha256("r1", "v1", "log", Some("/m"), &b2);
    assert_eq!(d1, d2);
    assert_ne!(d1, bundle_sha256("r1", "v1", "log", None, &b1));
}

#[test]
fn rejection_messages_name_the_gate() {
    assert!(Rejection::NoDataRegistered.message().contains("model_trained requires prior data_registered"));
    assert!(Rejection::ApprovalRejected.message().contains("decision=reject"));
    assert!(Rejection::DuplicateEvent.message().starts_with("duplicate event_id"));
}

#[test]
fn canonical_output_is_a_fixed_point() {
    let sorted = obj(vec![("a", JsonValue::Array(vec![obj(vec![("k", num("1")), ("m", s("v"))])])), ("b", JsonValue::Null)]);
    assert_eq!(canonical_json(&sorted), to_json_string(&sorted));
    let shuffled = obj(vec![("b", JsonValue::Null), ("a", JsonValue::Array(vec![obj(vec![("m", s("v")), ("k", num("1"))])]))]);
    assert_eq!(canonical_json(&shuffled), to_json_string(&sorted));
}

#[test]
fn bundle_ignores_log_order_with_duplicate_ids() {
    let h1 = vec![
        ev("x", "data_registered", "t1", "r1", JsonValue::Null),
        ev("y", "note", "t2", "r1", JsonValue::Null),
        ev("x", "data_registered", "t3", "r1", JsonValue::Bool(true)),
    ];
    let h2: Vec<EvidenceEvent> = vec![copy_event(&h1[2]), copy_event(&h1[1]), copy_event(&h1[0])];
    let b1 = collect_events_for_run(h1, "r1");
    let b2 = collect_events_for_run(h2, "r1");
    assert_eq!(b1.len(), 2);
    assert_eq!(b1[1].ts_utc, "t3");
    assert_eq!(bundle_sha256("r1", "v", "l", None, &b1), bundle_sha256("r1", "v", "l", None, &b2));
}

#[test]
fn equal_timestamps_keep_the_later_append() {
    let h = vec![
        ev("x", "a", "t1", "r1", JsonValue::Bool(false)),
        ev("x", "a", "t1", "r1", JsonValue::Bool(true)),
    ];
    let out = canonicalize_events(h);
    assert_eq!(out.len(), 1);
    assert!(matches!(out[0].payload, JsonValue::Bool(true)));
}

#[test]
fn collect_sorts_and_dedups() {
    let h = vec![
        ev("b", "note", "b", "r1", JsonValue::Null),
        ev("a", "note", "a", "r1", JsonValue::Null),
        ev("b", "note", "c", "r1", JsonValue::Bool(true)),
        ev("z", "note", "0", "r2", JsonValue::Null),
    ];
    let got: Vec<(String, String)> = collect_events_for_run(h, "r1").into_iter().map(|e| (e.event_id, e.ts_utc)).collect();
    assert_eq!(got, vec![("a".to_string(), "a".to_string()), ("b".to_string(), "c".to_string())]);
}

#[test]
fn artifact_path_is_trimmed() {
    let evs = vec![promotion("p1", "t1", "r", " /m "), promotion("p2", "t2", "r", "   ")];
    assert_eq!(find_model_artifact_path(&evs), Some("/m".to_string()));
    let blank = vec![promotion("p2", "t2", "r", " \t ")];
    assert_eq!(find_model_artifact_path(&blank), None);
}

#[test]
fn bundle_for_run_gives_events_and_path() {
    let h = vec![promotion("p1", "t2", "r1", " /models/r1 "), data_registered("d", "t1", "r1"), data_registered("x", "t0", "r2")];
    let (events, path) = bundle_for_run(h, "r1");
    let ids: Vec<&str> = events.iter().map(|e| e.event_id.as_str()).collect();
    assert_eq!(ids, vec!["d", "p1"]);
    assert_eq!(path, Some("/models/r1".to_string()));
    let digest = bundle_sha256("r1", "v", "l", path.as_deref(), &events);
    assert_eq!(digest.len(), 64);
    assert!(digest.chars().all(|c| c.is_ascii_digit() || ('a'..='f').contains(&c)));
}

#[test]
fn control_characters_are_escaped() {
    let v = JsonValue::Array(vec![s("a\u{1}b\n\\")]);
    assert_eq!(to_json_string(&v), "[\"a\\u0001b\\n\\\\\"]");
}
