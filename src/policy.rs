//! Admission rules: payload shape per event type, and gates over run history.
use crate::event::EvidenceEvent;
use crate::json::{field_bool, field_is_number, field_str, get_bool, get_str, has_number, str_is, JsonValue};
use vstd::prelude::*;

verus! {

/// A human decision on promotion.
#[derive(Debug, Clone, Copy, PartialEq, Eq, Structural)]
pub enum Decision {
    Approve,
    Reject,
}

/// Why an event was not admitted.
#[derive(Debug, Clone, Copy, PartialEq, Eq, Structural)]
pub enum Rejection {
    /// `data_registered` lacks a non-empty `dataset` or `dataset_fingerprint`.
    DataRegisteredShape,
    /// `evaluation_reported` lacks `metric`, `value`, `threshold` or `passed`.
    EvaluationShape,
    /// `human_approved` lacks its scope, decision, approver or justification.
    ApprovalShape,
    /// `model_trained` came before any `data_registered` of its run.
    NoDataRegistered,
    /// `model_promoted` came before any passed evaluation of its run.
    NoPassedEvaluation,
    /// The latest promotion decision of the run is a rejection.
    ApprovalRejected,
    /// The run has no promotion decision at all.
    NoApproval,
    /// The run already holds an event with this `event_id`.
    DuplicateEvent,
}

/// The human-readable reason for each rejection, naming the failed rule.
pub open spec fn reason_text(r: Rejection) -> Seq<char> {
    match r {
        Rejection::DataRegisteredShape => "policy_violation: data_registered payload must include non-empty dataset(str) and dataset_fingerprint(str)"@,
        Rejection::EvaluationShape => "policy_violation: evaluation_reported payload must include metric(str), value(number), threshold(number), passed(bool)"@,
        Rejection::ApprovalShape => "policy_violation: human_approved payload must include scope=\"model_promoted\", decision(\"approve\"|\"reject\"), non-empty approver(str) and justification(str)"@,
        Rejection::NoDataRegistered => "policy_violation: model_trained requires prior data_registered for the same run_id"@,
        Rejection::NoPassedEvaluation => "policy_violation: model_promoted requires prior evaluation_reported with passed=true"@,
        Rejection::ApprovalRejected => "policy_violation: model_promoted blocked by human_approved decision=reject"@,
        Rejection::NoApproval => "policy_violation: model_promoted requires prior human_approved decision=approve with scope=model_promoted"@,
        Rejection::DuplicateEvent => "duplicate event_id for run_id"@,
    }
}

impl Rejection {
    /// A human-readable reason naming the failed rule.
    pub fn message(&self) -> (r: String)
        ensures
            r@ == reason_text(*self),
    {
        match self {
            Rejection::DataRegisteredShape => "policy_violation: data_registered payload must include non-empty dataset(str) and dataset_fingerprint(str)".to_owned(),
            Rejection::EvaluationShape => "policy_violation: evaluation_reported payload must include metric(str), value(number), threshold(number), passed(bool)".to_owned(),
            Rejection::ApprovalShape => "policy_violation: human_approved payload must include scope=\"model_promoted\", decision(\"approve\"|\"reject\"), non-empty approver(str) and justification(str)".to_owned(),
            Rejection::NoDataRegistered => "policy_violation: model_trained requires prior data_registered for the same run_id".to_owned(),
            Rejection::NoPassedEvaluation => "policy_violation: model_promoted requires prior evaluation_reported with passed=true".to_owned(),
            Rejection::ApprovalRejected => "policy_violation: model_promoted blocked by human_approved decision=reject".to_owned(),
            Rejection::NoApproval => "policy_violation: model_promoted requires prior human_approved decision=approve with scope=model_promoted".to_owned(),
            Rejection::DuplicateEvent => "duplicate event_id for run_id".to_owned(),
        }
    }
}

/// The member `key` is a non-empty string.
pub open spec fn nonempty_str(p: JsonValue, key: Seq<char>) -> bool {
    field_str(p, key) matches Some(s) && s.len() > 0
}

/// A `data_registered` payload names a dataset and its fingerprint.
pub open spec fn data_registered_ok(p: JsonValue) -> bool {
    nonempty_str(p, "dataset"@) && nonempty_str(p, "dataset_fingerprint"@)
}

/// An `evaluation_reported` payload carries its metric, value, threshold and outcome.
pub open spec fn evaluation_ok(p: JsonValue) -> bool {
    &&& field_str(p, "metric"@) is Some
    &&& field_is_number(p, "value"@)
    &&& field_is_number(p, "threshold"@)
    &&& field_bool(p, "passed"@) is Some
}

/// A `human_approved` payload decides on promotion and names who and why.
pub open spec fn approval_ok(p: JsonValue) -> bool {
    &&& field_str(p, "scope"@) == Some("model_promoted"@)
    &&& (field_str(p, "decision"@) == Some("approve"@) || field_str(p, "decision"@) == Some(
        "reject"@,
    ))
    &&& nonempty_str(p, "approver"@)
    &&& nonempty_str(p, "justification"@)
}

/// The history holds an event of type `ty` for run `run`.
pub open spec fn has_event(h: Seq<EvidenceEvent>, run: Seq<char>, ty: Seq<char>) -> bool {
    exists|i: int| 0 <= i < h.len() && #[trigger] h[i].run_id@ == run && h[i].event_type@ == ty
}

/// Event `e` is an evaluation of run `run` that passed.
pub open spec fn is_passed_evaluation(e: EvidenceEvent, run: Seq<char>) -> bool {
    &&& e.run_id@ == run
    &&& e.event_type@ == "evaluation_reported"@
    &&& field_bool(e.payload, "passed"@) == Some(true)
}

/// The history holds a passed evaluation for run `run`.
pub open spec fn has_passed_eval(h: Seq<EvidenceEvent>, run: Seq<char>) -> bool {
    exists|i: int| 0 <= i < h.len() && is_passed_evaluation(#[trigger] h[i], run)
}

/// The promotion decision that event `e` records for run `run`, if any.
pub open spec fn decision_of(e: EvidenceEvent, run: Seq<char>) -> Option<Decision> {
    if e.run_id@ == run && e.event_type@ == "human_approved"@ && field_str(e.payload, "scope"@)
        == Some("model_promoted"@) {
        if field_str(e.payload, "decision"@) == Some("approve"@) {
            Some(Decision::Approve)
        } else if field_str(e.payload, "decision"@) == Some("reject"@) {
            Some(Decision::Reject)
        } else {
            None
        }
    } else {
        None
    }
}

/// The last promotion decision for run `run` in append order.
pub open spec fn latest_decision(h: Seq<EvidenceEvent>, run: Seq<char>) -> Option<Decision>
    decreases h.len(),
{
    if h.len() == 0 {
        None
    } else {
        match decision_of(h.last(), run) {
            Some(d) => Some(d),
            None => latest_decision(h.drop_last(), run),
        }
    }
}

/// The admission verdict for `e` given the history `h`, in append order.
pub open spec fn verdict(e: EvidenceEvent, h: Seq<EvidenceEvent>) -> Result<(), Rejection> {
    let t = e.event_type@;
    let p = e.payload;
    if t == "data_registered"@ {
        if data_registered_ok(p) { Ok(()) } else { Err(Rejection::DataRegisteredShape) }
    } else if t == "model_trained"@ {
        if has_event(h, e.run_id@, "data_registered"@) {
            Ok(())
        } else {
            Err(Rejection::NoDataRegistered)
        }
    } else if t == "evaluation_reported"@ {
        if evaluation_ok(p) { Ok(()) } else { Err(Rejection::EvaluationShape) }
    } else if t == "human_approved"@ {
        if approval_ok(p) { Ok(()) } else { Err(Rejection::ApprovalShape) }
    } else if t == "model_promoted"@ {
        if !has_passed_eval(h, e.run_id@) {
            Err(Rejection::NoPassedEvaluation)
        } else {
            match latest_decision(h, e.run_id@) {
                Some(Decision::Approve) => Ok(()),
                Some(Decision::Reject) => Err(Rejection::ApprovalRejected),
                None => Err(Rejection::NoApproval),
            }
        }
    } else {
        Ok(())
    }
}

/// The history holds an event of run `run` with identifier `id`.
pub open spec fn has_event_id(h: Seq<EvidenceEvent>, run: Seq<char>, id: Seq<char>) -> bool {
    exists|i: int| 0 <= i < h.len() && #[trigger] h[i].run_id@ == run && h[i].event_id@ == id
}

/// The member `key` is a non-empty string.
fn nonempty_field(p: &JsonValue, key: &str) -> (r: bool)
    ensures
        r == nonempty_str(*p, key@),
{
    match get_str(p, key) {
        Some(s) => !s.as_str().is_empty(),
        None => false,
    }
}

/// Payload rule for `data_registered`.
fn enforce_data_registered(event: &EvidenceEvent) -> (r: Result<(), Rejection>)
    ensures
        r == (if data_registered_ok(event.payload) {
            Ok(())
        } else {
            Err(Rejection::DataRegisteredShape)
        }),
{
    if nonempty_field(&event.payload, "dataset") && nonempty_field(&event.payload, "dataset_fingerprint") {
        Ok(())
    } else {
        Err(Rejection::DataRegisteredShape)
    }
}

/// Payload rule for `evaluation_reported`.
fn enforce_evaluation_reported(event: &EvidenceEvent) -> (r: Result<(), Rejection>)
    ensures
        r == (if evaluation_ok(event.payload) {
            Ok(())
        } else {
            Err(Rejection::EvaluationShape)
        }),
{
    let p = &event.payload;
    let metric_ok = get_str(p, "metric").is_some();
    let value_ok = has_number(p, "value");
    let threshold_ok = has_number(p, "threshold");
    let passed_ok = get_bool(p, "passed").is_some();
    if metric_ok && value_ok && threshold_ok && passed_ok {
        Ok(())
    } else {
        Err(Rejection::EvaluationShape)
    }
}

/// The member `key` is the string `lit`.
fn field_is(p: &JsonValue, key: &str, lit: &str) -> (r: bool)
    ensures
        r == (field_str(*p, key@) == Some(lit@)),
{
    match get_str(p, key) {
        Some(s) => str_is(s.as_str(), lit),
        None => false,
    }
}

/// Payload rule for `human_approved`.
fn enforce_human_approved(event: &EvidenceEvent) -> (r: Result<(), Rejection>)
    ensures
        r == (if approval_ok(event.payload) {
            Ok(())
        } else {
            Err(Rejection::ApprovalShape)
        }),
{
    let p = &event.payload;
    let scope_ok = field_is(p, "scope", "model_promoted");
    let decision_ok = field_is(p, "decision", "approve") || field_is(p, "decision", "reject");
    let approver_ok = nonempty_field(p, "approver");
    let just_ok = nonempty_field(p, "justification");
    if scope_ok && decision_ok && approver_ok && just_ok {
        Ok(())
    } else {
        Err(Rejection::ApprovalShape)
    }
}

/// Scans the history for an event of type `event_type` in run `run_id`.
pub fn has_event_for_run(event_type: &str, run_id: &str, history: &Vec<EvidenceEvent>) -> (r: bool)
    ensures
        r == has_event(history@, run_id@, event_type@),
{
    let mut i: usize = 0;
    while i < history.len()
        invariant
            i <= history@.len(),
            forall|j: int|
                0 <= j < i ==> !(#[trigger] history@[j].run_id@ == run_id@ && history@[j].event_type@
                    == event_type@),
        decreases history@.len() - i,
    {
        let e = &history[i];
        if str_is(e.run_id.as_str(), run_id) && str_is(e.event_type.as_str(), event_type) {
            return true;
        }
        i = i + 1;
    }
    false
}

/// Scans the history for an evaluation of run `run_id` with `passed == true`.
pub fn has_passed_evaluation(run_id: &str, history: &Vec<EvidenceEvent>) -> (r: bool)
    ensures
        r == has_passed_eval(history@, run_id@),
{
    let mut i: usize = 0;
    while i < history.len()
        invariant
            i <= history@.len(),
            forall|j: int| 0 <= j < i ==> !is_passed_evaluation(#[trigger] history@[j], run_id@),
        decreases history@.len() - i,
    {
        let e = &history[i];
        if str_is(e.run_id.as_str(), run_id) && str_is(e.event_type.as_str(), "evaluation_reported") {
            match get_bool(&e.payload, "passed") {
                Some(true) => {
                    return true;
                },
                _ => {},
            }
        }
        i = i + 1;
    }
    false
}

/// The decision of the last promotion approval of run `run_id`, in append order.
pub fn latest_human_approval_decision(run_id: &str, history: &Vec<EvidenceEvent>) -> (r: Option<
    Decision,
>)
    ensures
        r == latest_decision(history@, run_id@),
{
    let mut latest: Option<Decision> = None;
    let mut i: usize = 0;
    assert(history@.take(0) =~= Seq::<EvidenceEvent>::empty());
    while i < history.len()
        invariant
            i <= history@.len(),
            latest == latest_decision(history@.take(i as int), run_id@),
        decreases history@.len() - i,
    {
        let e = &history[i];
        let ghost before = history@.take(i as int);
        assert(history@.take(i + 1).drop_last() =~= before);
        assert(history@.take(i + 1).last() == *e);
        if str_is(e.run_id.as_str(), run_id) && str_is(e.event_type.as_str(), "human_approved")
            && field_is(&e.payload, "scope", "model_promoted") {
            if field_is(&e.payload, "decision", "approve") {
                latest = Some(Decision::Approve);
            } else if field_is(&e.payload, "decision", "reject") {
                latest = Some(Decision::Reject);
            }
        }
        i = i + 1;
    }
    assert(history@.take(i as int) =~= history@);
    latest
}

/// Gate for `model_trained`: the run already registered its data.
fn enforce_model_trained(event: &EvidenceEvent, history: &Vec<EvidenceEvent>) -> (r: Result<(), Rejection>)
    ensures
        r == (if has_event(history@, event.run_id@, "data_registered"@) {
            Ok(())
        } else {
            Err(Rejection::NoDataRegistered)
        }),
{
    if has_event_for_run("data_registered", event.run_id.as_str(), history) {
        Ok(())
    } else {
        Err(Rejection::NoDataRegistered)
    }
}

/// Gates for `model_promoted`: a passed evaluation, then the latest decision.
fn enforce_model_promoted(event: &EvidenceEvent, history: &Vec<EvidenceEvent>) -> (r: Result<(), Rejection>)
    ensures
        r == (if !has_passed_eval(history@, event.run_id@) {
            Err(Rejection::NoPassedEvaluation)
        } else {
            match latest_decision(history@, event.run_id@) {
                Some(Decision::Approve) => Ok(()),
                Some(Decision::Reject) => Err(Rejection::ApprovalRejected),
                None => Err(Rejection::NoApproval),
            }
        }),
{
    if !has_passed_evaluation(event.run_id.as_str(), history) {
        return Err(Rejection::NoPassedEvaluation);
    }
    match latest_human_approval_decision(event.run_id.as_str(), history) {
        Some(Decision::Approve) => Ok(()),
        Some(Decision::Reject) => Err(Rejection::ApprovalRejected),
        None => Err(Rejection::NoApproval),
    }
}

/// Checks `event` against its type's payload rule and, for gated types,
/// against the history of its run (events in append order).
pub fn enforce(event: &EvidenceEvent, history: &Vec<EvidenceEvent>) -> (r: Result<(), Rejection>)
    ensures
        r == verdict(*event, history@),
{
    let t = event.event_type.as_str();
    if str_is(t, "data_registered") {
        enforce_data_registered(event)
    } else if str_is(t, "model_trained") {
        enforce_model_trained(event, history)
    } else if str_is(t, "evaluation_reported") {
        enforce_evaluation_reported(event)
    } else if str_is(t, "human_approved") {
        enforce_human_approved(event)
    } else if str_is(t, "model_promoted") {
        enforce_model_promoted(event, history)
    } else {
        Ok(())
    }
}

/// Refuses an event whose `event_id` already occurs among its run's events.
pub fn reject_duplicate_event_id(event: &EvidenceEvent, history: &Vec<EvidenceEvent>) -> (r: Result<(), Rejection>)
    ensures
        r == (if !has_event_id(history@, event.run_id@, event.event_id@) {
            Ok(())
        } else {
            Err(Rejection::DuplicateEvent)
        }),
{
    let mut i: usize = 0;
    while i < history.len()
        invariant
            i <= history@.len(),
            forall|j: int|
                0 <= j < i ==> !(#[trigger] history@[j].run_id@ == event.run_id@ && history@[j].event_id@
                    == event.event_id@),
        decreases history@.len() - i,
    {
        let e = &history[i];
        if str_is(e.run_id.as_str(), event.run_id.as_str()) && str_is(e.event_id.as_str(), event.event_id.as_str()) {
            return Err(Rejection::DuplicateEvent);
        }
        i = i + 1;
    }
    Ok(())
}

/// `model_trained` is refused while its run has no `data_registered` event,
/// and admitted once such an event has been appended.
pub proof fn lemma_gate_ordering(e: EvidenceEvent, h: Seq<EvidenceEvent>, d: EvidenceEvent)
    requires
        e.event_type@ == "model_trained"@,
        d.event_type@ == "data_registered"@,
        d.run_id@ == e.run_id@,
    ensures
        !has_event(h, e.run_id@, "data_registered"@) ==> verdict(e, h) == Err::<(), Rejection>(
            Rejection::NoDataRegistered,
        ),
        verdict(e, h.push(d)) == Ok::<(), Rejection>(()),
{
    reveal_strlit("model_trained");
    reveal_strlit("data_registered");
    assert("model_trained"@[0] != "data_registered"@[0]);
    let h2 = h.push(d);
    assert(h2[h.len() as int] == d);
    assert(has_event(h2, e.run_id@, "data_registered"@));
}

/// Events that record no promotion decision for `run` do not change the
/// latest decision.
pub proof fn lemma_latest_decision_skip(s: Seq<EvidenceEvent>, t: Seq<EvidenceEvent>, run: Seq<char>)
    requires
        forall|i: int| 0 <= i < t.len() ==> decision_of(#[trigger] t[i], run) is None,
    ensures
        latest_decision(s + t, run) == latest_decision(s, run),
    decreases t.len(),
{
    if t.len() > 0 {
        assert((s + t).drop_last() =~= s + t.drop_last());
        assert((s + t).last() == t[t.len() - 1]);
        lemma_latest_decision_skip(s, t.drop_last(), run);
    }
}

/// With a passed evaluation on record, a promotion follows the later of two
/// decisions for its run: approve then reject refuses it, reject then approve
/// admits it. Events between and after them record no decision for the run.
pub proof fn lemma_latest_approval_wins(
    e: EvidenceEvent,
    pre: Seq<EvidenceEvent>,
    first: EvidenceEvent,
    mid: Seq<EvidenceEvent>,
    second: EvidenceEvent,
    post: Seq<EvidenceEvent>,
)
    requires
        e.event_type@ == "model_promoted"@,
        has_passed_eval(pre, e.run_id@),
        decision_of(first, e.run_id@) is Some,
        decision_of(second, e.run_id@) is Some,
        forall|i: int| 0 <= i < mid.len() ==> decision_of(#[trigger] mid[i], e.run_id@) is None,
        forall|i: int| 0 <= i < post.len() ==> decision_of(#[trigger] post[i], e.run_id@) is None,
    ensures
        ({
            let h = pre + seq![first] + mid + seq![second] + post;
            &&& decision_of(second, e.run_id@) == Some(Decision::Reject) ==> verdict(e, h)
                == Err::<(), Rejection>(Rejection::ApprovalRejected)
            &&& decision_of(second, e.run_id@) == Some(Decision::Approve) ==> verdict(e, h)
                == Ok::<(), Rejection>(())
        }),
{
    reveal_strlit("model_promoted");
    reveal_strlit("data_registered");
    reveal_strlit("model_trained");
    reveal_strlit("evaluation_reported");
    reveal_strlit("human_approved");
    assert("model_promoted"@[0] != "data_registered"@[0]);
    assert("model_promoted"@[6] != "model_trained"@[6]);
    assert("model_promoted"@[0] != "evaluation_reported"@[0]);
    assert("model_promoted"@[0] != "human_approved"@[0]);
    let run = e.run_id@;
    let a = pre + seq![first] + mid + seq![second];
    let h = a + post;
    lemma_latest_decision_skip(a, post, run);
    assert(a.drop_last() =~= pre + seq![first] + mid);
    assert(a.last() == second);
    let i = choose|i: int| 0 <= i < pre.len() && is_passed_evaluation(#[trigger] pre[i], run);
    assert(h[i] == pre[i]);
    assert(has_passed_eval(h, run));
    assert(h == pre + seq![first] + mid + seq![second] + post);
}

} // verus!
