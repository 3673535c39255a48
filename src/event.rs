//! The governance event recorded in the ledger.
use crate::json::{canonical_text, json_quoted, quote, write_canonical, JsonValue};
use vstd::prelude::*;

verus! {

/// One governance fact about a run.
#[derive(Debug)]
pub struct EvidenceEvent {
    pub event_id: String,
    pub event_type: String,
    pub ts_utc: String,
    pub actor: String,
    pub system: String,
    pub run_id: String,
    pub payload: JsonValue,
}

/// A member's text: quoted key, colon, value text.
pub open spec fn entry(key: Seq<char>, value: Seq<char>) -> Seq<char> {
    json_quoted(key) + ":"@ + value
}

/// An event's text as stored in the ledger: its fields in declaration order,
/// the payload in canonical form.
pub open spec fn event_text(e: EvidenceEvent) -> Seq<char> {
    "{"@ + entry("event_id"@, json_quoted(e.event_id@)) + ","@ + entry(
        "event_type"@,
        json_quoted(e.event_type@),
    ) + ","@ + entry("ts_utc"@, json_quoted(e.ts_utc@)) + ","@ + entry(
        "actor"@,
        json_quoted(e.actor@),
    ) + ","@ + entry("system"@, json_quoted(e.system@)) + ","@ + entry(
        "run_id"@,
        json_quoted(e.run_id@),
    ) + ","@ + entry("payload"@, canonical_text(e.payload)) + "}"@
}

/// Appends `"key":` to `out`.
pub(crate) fn push_key(out: &mut String, key: &str)
    ensures
        final(out)@ == old(out)@ + json_quoted(key@) + ":"@,
{
    let q = quote(key);
    out.append(q.as_str());
    out.append(":");
}

/// Appends `"key":"value"` to `out`.
pub(crate) fn push_str_entry(out: &mut String, key: &str, value: &str)
    ensures
        final(out)@ == old(out)@ + entry(key@, json_quoted(value@)),
{
    push_key(out, key);
    let q = quote(value);
    out.append(q.as_str());
}

/// The text an event is stored as in the ledger.
pub fn event_json(e: &EvidenceEvent) -> (r: String)
    ensures
        r@ == event_text(*e),
{
    let mut out = String::new();
    out.append("{");
    push_str_entry(&mut out, "event_id", e.event_id.as_str());
    out.append(",");
    push_str_entry(&mut out, "event_type", e.event_type.as_str());
    out.append(",");
    push_str_entry(&mut out, "ts_utc", e.ts_utc.as_str());
    out.append(",");
    push_str_entry(&mut out, "actor", e.actor.as_str());
    out.append(",");
    push_str_entry(&mut out, "system", e.system.as_str());
    out.append(",");
    push_str_entry(&mut out, "run_id", e.run_id.as_str());
    out.append(",");
    push_key(&mut out, "payload");
    write_canonical(&e.payload, &mut out);
    out.append("}");
    assert(out@ =~= event_text(*e));
    out
}

} // verus!
