//! Run bundles: a run's events, deduplicated and deterministically ordered,
//! with a digest over their canonical JSON text.
use crate::digest::{digest_hex, is_lower_hex, sha256_hex};
use crate::event::{entry, push_key, push_str_entry, EvidenceEvent};
use crate::json::{canonical_text, field_str, get_str, json_quoted, quote, str_is, write_canonical};
use crate::order::{
    bytes_le, lemma_bytes_le_antisym, lemma_bytes_le_refl, lemma_bytes_le_total, lemma_bytes_le_trans,
    str_le,
};
use vstd::relations::sorted_by;
use vstd::utf8::encode_utf8_decode_utf8;
use vstd::prelude::*;
use vstd::utf8::encode_utf8;

verus! {

/// `a` orders before or equal to `b` by timestamp, then type, then id.
pub open spec fn event_le(a: EvidenceEvent, b: EvidenceEvent) -> bool {
    if a.ts_utc@ != b.ts_utc@ {
        bytes_le(encode_utf8(a.ts_utc@), encode_utf8(b.ts_utc@))
    } else if a.event_type@ != b.event_type@ {
        bytes_le(encode_utf8(a.event_type@), encode_utf8(b.event_type@))
    } else {
        bytes_le(encode_utf8(a.event_id@), encode_utf8(b.event_id@))
    }
}

/// `a` is strictly earlier than `b` by timestamp bytes.
pub open spec fn ts_before(a: EvidenceEvent, b: EvidenceEvent) -> bool {
    a.ts_utc@ != b.ts_utc@ && bytes_le(encode_utf8(a.ts_utc@), encode_utf8(b.ts_utc@))
}

/// The events of run `run`, in their order.
pub open spec fn run_events(h: Seq<EvidenceEvent>, run: Seq<char>) -> Seq<EvidenceEvent>
    decreases h.len(),
{
    if h.len() == 0 {
        Seq::empty()
    } else {
        let rest = run_events(h.drop_last(), run);
        if h.last().run_id@ == run {
            rest.push(h.last())
        } else {
            rest
        }
    }
}

/// Event `i` is the one kept for its `event_id`: every other event with that
/// id has an earlier timestamp, or the same timestamp and an earlier position.
pub open spec fn is_kept(evs: Seq<EvidenceEvent>, i: int) -> bool {
    forall|j: int|
        0 <= j < evs.len() && j != i && (#[trigger] evs[j]).event_id@ == evs[i].event_id@ ==> (
        ts_before(evs[j], evs[i]) || (evs[j].ts_utc@ == evs[i].ts_utc@ && j < i))
}

/// The kept events among the first `n`, in their order.
pub open spec fn kept_events(evs: Seq<EvidenceEvent>, n: int) -> Seq<EvidenceEvent>
    decreases n,
{
    if n <= 0 {
        Seq::empty()
    } else if is_kept(evs, n - 1) {
        kept_events(evs, n - 1).push(evs[n - 1])
    } else {
        kept_events(evs, n - 1)
    }
}

/// Position of the first least event of a non-empty sequence.
pub open spec fn min_index(s: Seq<EvidenceEvent>) -> int
    decreases s.len(),
{
    if s.len() <= 1 {
        0
    } else {
        let m = min_index(s.drop_last());
        if event_le(s[m], s.last()) {
            m
        } else {
            s.len() - 1
        }
    }
}

/// The events in ascending `(ts_utc, event_type, event_id)` order; equal keys
/// keep their relative order.
pub open spec fn sorted_events(s: Seq<EvidenceEvent>) -> Seq<EvidenceEvent>
    decreases s.len(),
{
    if s.len() == 0 {
        Seq::empty()
    } else {
        let m = min_index(s);
        if 0 <= m < s.len() {
            seq![s[m]] + sorted_events(s.remove(m))
        } else {
            s
        }
    }
}

/// A run's bundle events: one per `event_id`, in deterministic order.
pub open spec fn bundle_events(evs: Seq<EvidenceEvent>) -> Seq<EvidenceEvent> {
    sorted_events(kept_events(evs, evs.len() as int))
}

/// The characters of `s` without leading and trailing whitespace, as
/// `str::trim` gives them.
pub uninterp spec fn trimmed(s: Seq<char>) -> Seq<char>;

/// Relies on `str::trim`: drops leading and trailing Unicode whitespace; the
/// result depends on the characters alone.
#[verifier::external_body]
fn trim_text(s: &str) -> (r: String)
    ensures
        r@ == trimmed(s@),
{
    s.trim().to_string()
}

/// The trimmed `artifact_path` of an event, when it is a string that is not
/// blank.
pub open spec fn artifact_of(e: EvidenceEvent) -> Option<Seq<char>> {
    match field_str(e.payload, "artifact_path"@) {
        Some(p) => if e.event_type@ == "model_promoted"@ && trimmed(p).len() > 0 {
            Some(trimmed(p))
        } else {
            None
        },
        None => None,
    }
}

/// The trimmed, non-blank `artifact_path` of the last `model_promoted` event
/// that has one.
pub open spec fn artifact_path(evs: Seq<EvidenceEvent>) -> Option<Seq<char>>
    decreases evs.len(),
{
    if evs.len() == 0 {
        None
    } else {
        match artifact_of(evs.last()) {
            Some(p) => Some(p),
            None => artifact_path(evs.drop_last()),
        }
    }
}

/// An event's canonical text: its fields sorted by name, the payload canonical.
pub open spec fn event_canonical_text(e: EvidenceEvent) -> Seq<char> {
    "{"@ + entry("actor"@, json_quoted(e.actor@)) + ","@ + entry(
        "event_id"@,
        json_quoted(e.event_id@),
    ) + ","@ + entry("event_type"@, json_quoted(e.event_type@)) + ","@ + entry(
        "payload"@,
        canonical_text(e.payload),
    ) + ","@ + entry("run_id"@, json_quoted(e.run_id@)) + ","@ + entry(
        "system"@,
        json_quoted(e.system@),
    ) + ","@ + entry("ts_utc"@, json_quoted(e.ts_utc@)) + "}"@
}

/// Canonical texts of events joined by commas.
pub open spec fn events_text(evs: Seq<EvidenceEvent>) -> Seq<char>
    decreases evs.len(),
{
    if evs.len() == 0 {
        Seq::empty()
    } else if evs.len() == 1 {
        event_canonical_text(evs[0])
    } else {
        events_text(evs.drop_last()) + ","@ + event_canonical_text(evs.last())
    }
}

/// The canonical text of a bundle envelope.
pub open spec fn bundle_text(
    run_id: Seq<char>,
    policy_version: Seq<char>,
    log_path: Seq<char>,
    artifact: Option<Seq<char>>,
    evs: Seq<EvidenceEvent>,
) -> Seq<char> {
    "{"@ + entry("events"@, "["@ + events_text(evs) + "]"@) + ","@ + entry(
        "log_path"@,
        json_quoted(log_path),
    ) + ","@ + entry(
        "model_artifact_path"@,
        match artifact {
            Some(a) => json_quoted(a),
            None => "null"@,
        },
    ) + ","@ + entry("ok"@, "true"@) + ","@ + entry("policy_version"@, json_quoted(policy_version))
        + ","@ + entry("run_id"@, json_quoted(run_id)) + "}"@
}

/// The digest of a bundle: SHA-256 over the UTF-8 bytes of its canonical text.
pub open spec fn bundle_digest(
    run_id: Seq<char>,
    policy_version: Seq<char>,
    log_path: Seq<char>,
    artifact: Option<Seq<char>>,
    evs: Seq<EvidenceEvent>,
) -> Seq<char> {
    digest_hex(encode_utf8(bundle_text(run_id, policy_version, log_path, artifact, evs)))
}

/// The first least position lies inside the sequence.
pub proof fn lemma_min_index_range(s: Seq<EvidenceEvent>)
    requires
        s.len() > 0,
    ensures
        0 <= min_index(s) < s.len(),
    decreases s.len(),
{
    if s.len() > 1 {
        lemma_min_index_range(s.drop_last());
    }
}

/// Orders events by timestamp, then type, then id, comparing bytes.
pub fn stable_event_order(a: &EvidenceEvent, b: &EvidenceEvent) -> (r: bool)
    ensures
        r == event_le(*a, *b),
{
    if a.ts_utc != b.ts_utc {
        str_le(a.ts_utc.as_str(), b.ts_utc.as_str())
    } else if a.event_type != b.event_type {
        str_le(a.event_type.as_str(), b.event_type.as_str())
    } else {
        str_le(a.event_id.as_str(), b.event_id.as_str())
    }
}

/// Selects the events of run `run_id`, keeping their order.
fn select_run(history: Vec<EvidenceEvent>, run_id: &str) -> (r: Vec<EvidenceEvent>)
    ensures
        r@ == run_events(history@, run_id@),
{
    let ghost orig = history@;
    let total = history.len();
    let mut rest = history;
    let mut out: Vec<EvidenceEvent> = Vec::new();
    let mut i: usize = 0;
    assert(orig.skip(0) =~= orig);
    assert(orig.take(0) =~= Seq::<EvidenceEvent>::empty());
    while rest.len() > 0
        invariant
            i <= orig.len(),
            orig.len() == total,
            rest@ == orig.skip(i as int),
            out@ == run_events(orig.take(i as int), run_id@),
        decreases rest@.len(),
    {
        assert(orig.skip(i as int).len() == orig.len() - i);
        let e = rest.remove(0);
        assert(e == orig[i as int]);
        assert(orig.take(i + 1).drop_last() =~= orig.take(i as int));
        assert(orig.skip(i as int).drop_first() =~= orig.skip(i + 1));
        if str_is(e.run_id.as_str(), run_id) {
            out.push(e);
        }
        i = i + 1;
    }
    assert(orig.take(i as int) =~= orig);
    out
}

/// A run's events from the history (in append order): one per `event_id`
/// (latest timestamp, the later append on equal ones), ordered by timestamp,
/// type and id.
pub fn collect_events_for_run(history: Vec<EvidenceEvent>, run_id: &str) -> (r: Vec<EvidenceEvent>)
    ensures
        r@ == bundle_events(run_events(history@, run_id@)),
{
    canonicalize_events(select_run(history, run_id))
}

/// A run's bundle events and its model artifact path.
pub fn bundle_for_run(history: Vec<EvidenceEvent>, run_id: &str) -> (r: (Vec<EvidenceEvent>, Option<String>))
    ensures
        r.0@ == bundle_events(run_events(history@, run_id@)),
        r.1 matches Some(p) ==> artifact_path(r.0@) == Some(p@),
        r.1 is None ==> artifact_path(r.0@) is None,
{
    let events = collect_events_for_run(history, run_id);
    let artifact = find_model_artifact_path(&events);
    (events, artifact)
}

/// Whether event `i` is the one kept for its `event_id`.
fn kept_at(events: &Vec<EvidenceEvent>, i: usize) -> (r: bool)
    requires
        i < events@.len(),
    ensures
        r == is_kept(events@, i as int),
{
    let e = &events[i];
    let mut j: usize = 0;
    while j < events.len()
        invariant
            j <= events@.len(),
            i < events@.len(),
            *e == events@[i as int],
            forall|k: int|
                0 <= k < j && k != i && (#[trigger] events@[k]).event_id@ == e.event_id@ ==> (
                ts_before(events@[k], *e) || (events@[k].ts_utc@ == e.ts_utc@ && k < i)),
        decreases events@.len() - j,
    {
        let o = &events[j];
        if j != i && o.event_id == e.event_id {
            let earlier = if o.ts_utc != e.ts_utc {
                str_le(o.ts_utc.as_str(), e.ts_utc.as_str())
            } else {
                j < i
            };
            if !earlier {
                return false;
            }
        }
        j = j + 1;
    }
    true
}

/// Index of the first least event.
fn min_position(pool: &Vec<EvidenceEvent>) -> (r: usize)
    requires
        pool@.len() > 0,
    ensures
        r as int == min_index(pool@),
        r < pool@.len(),
{
    let mut m: usize = 0;
    let mut i: usize = 1;
    assert(pool@.take(1).len() == 1);
    while i < pool.len()
        invariant
            1 <= i <= pool@.len(),
            m < i,
            m as int == min_index(pool@.take(i as int)),
        decreases pool@.len() - i,
    {
        let ghost t = pool@.take(i + 1);
        assert(t.drop_last() =~= pool@.take(i as int));
        assert(t[m as int] == pool@[m as int]);
        assert(t.last() == pool@[i as int]);
        if !stable_event_order(&pool[m], &pool[i]) {
            m = i;
        }
        i = i + 1;
    }
    assert(pool@.take(i as int) =~= pool@);
    m
}

/// Keeps, for each `event_id`, the event with the latest timestamp (the later
/// one on equal timestamps), then orders them by timestamp, type and id.
pub fn canonicalize_events(events: Vec<EvidenceEvent>) -> (r: Vec<EvidenceEvent>)
    ensures
        r@ == bundle_events(events@),
        sorted_by(r@, |a: EvidenceEvent, b: EvidenceEvent| event_le(a, b)),
        distinct_ids(r@),
        forall|e: EvidenceEvent|
            r@.contains(e) <==> exists|i: int|
                0 <= i < events@.len() && #[trigger] events@[i] == e && is_kept(events@, i),
{
    let ghost orig = events@;
    let mut flags: Vec<bool> = Vec::new();
    let mut i: usize = 0;
    while i < events.len()
        invariant
            i <= events@.len(),
            events@ == orig,
            flags@.len() == i,
            forall|k: int| 0 <= k < i ==> flags@[k] == is_kept(orig, k),
        decreases events@.len() - i,
    {
        let f = kept_at(&events, i);
        flags.push(f);
        i = i + 1;
    }
    let total = events.len();
    let mut rest = events;
    let mut pool: Vec<EvidenceEvent> = Vec::new();
    let mut n: usize = 0;
    assert(orig.skip(0) =~= orig);
    while rest.len() > 0
        invariant
            n <= orig.len(),
            orig.len() == total,
            flags@.len() == orig.len(),
            forall|k: int| 0 <= k < orig.len() ==> flags@[k] == is_kept(orig, k),
            rest@ == orig.skip(n as int),
            pool@ == kept_events(orig, n as int),
        decreases rest@.len(),
    {
        assert(orig.skip(n as int).len() == orig.len() - n);
        let e = rest.remove(0);
        assert(e == orig[n as int]);
        assert(orig.skip(n as int).drop_first() =~= orig.skip(n + 1));
        if flags[n] {
            pool.push(e);
        }
        n = n + 1;
    }
    let ghost kept = pool@;
    let mut out: Vec<EvidenceEvent> = Vec::new();
    assert(out@ + sorted_events(pool@) =~= sorted_events(kept));
    while pool.len() > 0
        invariant
            out@ + sorted_events(pool@) == sorted_events(kept),
        decreases pool@.len(),
    {
        let m = min_position(&pool);
        let ghost before = pool@;
        let x = pool.remove(m);
        assert(sorted_events(before) == seq![x] + sorted_events(pool@));
        out.push(x);
        assert(out@ + sorted_events(pool@) =~= out@.drop_last() + sorted_events(before));
    }
    assert(out@ =~= sorted_events(kept));
    proof {
        lemma_kept_events(orig, orig.len() as int);
        lemma_sorted_events(kept);
        assert(kept == kept_events(orig, orig.len() as int));
        assert forall|e: EvidenceEvent| out@.contains(e) <==> exists|i: int|
            0 <= i < orig.len() && #[trigger] orig[i] == e && is_kept(orig, i) by {
            assert(out@.contains(e) <==> kept.contains(e));
        }
    }
    out
}

/// The trimmed `artifact_path` of the last `model_promoted` event whose path
/// is not blank.
pub fn find_model_artifact_path(events: &Vec<EvidenceEvent>) -> (r: Option<String>)
    ensures
        r matches Some(p) ==> artifact_path(events@) == Some(p@),
        r is None ==> artifact_path(events@) is None,
{
    let mut i: usize = events.len();
    assert(events@.take(i as int) =~= events@);
    while i > 0
        invariant
            i <= events@.len(),
            artifact_path(events@) == artifact_path(events@.take(i as int)),
        decreases i,
    {
        let e = &events[i - 1];
        let ghost t = events@.take(i as int);
        assert(t.drop_last() =~= events@.take(i - 1));
        assert(t.last() == *e);
        if str_is(e.event_type.as_str(), "model_promoted") {
            match get_str(&e.payload, "artifact_path") {
                Some(p) => {
                    let t = trim_text(p.as_str());
                    if !t.as_str().is_empty() {
                        return Some(t);
                    }
                },
                None => {},
            }
        }
        i = i - 1;
    }
    assert(events@.take(0) =~= Seq::<EvidenceEvent>::empty());
    None
}

/// Appends an event's canonical text to `out`.
fn write_event_canonical(out: &mut String, e: &EvidenceEvent)
    ensures
        final(out)@ == old(out)@ + event_canonical_text(*e),
{
    let ghost start = out@;
    out.append("{");
    push_str_entry(out, "actor", e.actor.as_str());
    out.append(",");
    push_str_entry(out, "event_id", e.event_id.as_str());
    out.append(",");
    push_str_entry(out, "event_type", e.event_type.as_str());
    out.append(",");
    push_key(out, "payload");
    write_canonical(&e.payload, out);
    out.append(",");
    push_str_entry(out, "run_id", e.run_id.as_str());
    out.append(",");
    push_str_entry(out, "system", e.system.as_str());
    out.append(",");
    push_str_entry(out, "ts_utc", e.ts_utc.as_str());
    out.append("}");
    assert(out@ =~= start + event_canonical_text(*e));
}

/// Appends the events' canonical texts, joined by commas, to `out`.
fn write_events(out: &mut String, events: &Vec<EvidenceEvent>)
    ensures
        final(out)@ == old(out)@ + events_text(events@),
{
    let ghost start = out@;
    let mut i: usize = 0;
    assert(events@.take(0) =~= Seq::<EvidenceEvent>::empty());
    assert(out@ =~= start + events_text(events@.take(0)));
    while i < events.len()
        invariant
            i <= events@.len(),
            out@ == start + events_text(events@.take(i as int)),
        decreases events@.len() - i,
    {
        let ghost before = out@;
        if i > 0 {
            out.append(",");
        }
        let ghost mid = out@;
        write_event_canonical(out, &events[i]);
        let ghost t = events@.take(i + 1);
        assert(t.drop_last() =~= events@.take(i as int));
        assert(t.last() == events@[i as int]);
        if i == 0 {
            assert(out@ =~= start + events_text(t));
        } else {
            assert(mid =~= before + ","@);
            assert(out@ =~= start + events_text(t));
        }
        i = i + 1;
    }
    assert(events@.take(i as int) =~= events@);
}

/// The optional text as a sequence of characters.
pub open spec fn opt_chars(a: Option<&str>) -> Option<Seq<char>> {
    match a {
        Some(s) => Some(s@),
        None => None,
    }
}

/// The canonical text of the bundle envelope
/// `{ok, run_id, policy_version, log_path, model_artifact_path, events}`.
#[verifier::rlimit(40)]
pub fn canonical_bundle_json(
    run_id: &str,
    policy_version: &str,
    log_path: &str,
    model_artifact_path: Option<&str>,
    events: &Vec<EvidenceEvent>,
) -> (r: String)
    ensures
        r@ == bundle_text(run_id@, policy_version@, log_path@, opt_chars(model_artifact_path), events@),
{
    let mut out = String::new();
    out.append("{");
    push_key(&mut out, "events");
    out.append("[");
    write_events(&mut out, events);
    let ghost a = out@;
    out.append("]");
    out.append(",");
    push_str_entry(&mut out, "log_path", log_path);
    out.append(",");
    push_key(&mut out, "model_artifact_path");
    match model_artifact_path {
        Some(a) => {
            let q = quote(a);
            out.append(q.as_str());
        },
        None => out.append("null"),
    }
    out.append(",");
    push_key(&mut out, "ok");
    out.append("true");
    out.append(",");
    push_str_entry(&mut out, "policy_version", policy_version);
    out.append(",");
    push_str_entry(&mut out, "run_id", run_id);
    out.append("}");
    assert(a =~= "{"@ + json_quoted("events"@) + ":"@ + "["@ + events_text(events@));
    assert(out@ =~= bundle_text(run_id@, policy_version@, log_path@, opt_chars(model_artifact_path), events@));
    out
}

/// The bundle digest: SHA-256, in hex, of the envelope's canonical text.
pub fn bundle_sha256(
    run_id: &str,
    policy_version: &str,
    log_path: &str,
    model_artifact_path: Option<&str>,
    events: &Vec<EvidenceEvent>,
) -> (r: String)
    ensures
        r@ == bundle_digest(run_id@, policy_version@, log_path@, opt_chars(model_artifact_path), events@),
        r@.len() == 64,
        is_lower_hex(r@),
{
    let text = canonical_bundle_json(run_id, policy_version, log_path, model_artifact_path, events);
    sha256_hex(text.as_str().as_bytes())
}

/// No two events share an `event_id`.
pub open spec fn distinct_ids(evs: Seq<EvidenceEvent>) -> bool {
    forall|i: int, j: int|
        0 <= i < evs.len() && 0 <= j < evs.len() && i != j ==> (#[trigger] evs[i]).event_id@
            != (#[trigger] evs[j]).event_id@
}

/// Event order facts that rest on the byte order and on UTF-8 being injective.
pub proof fn lemma_event_le_facts(a: EvidenceEvent, b: EvidenceEvent, c: EvidenceEvent)
    ensures
        event_le(a, b) || event_le(b, a),
        event_le(a, a),
        event_le(a, b) && event_le(b, c) ==> event_le(a, c),
        event_le(a, b) && event_le(b, a) ==> a.event_id@ == b.event_id@,
{
    encode_utf8_decode_utf8(a.ts_utc@);
    encode_utf8_decode_utf8(b.ts_utc@);
    encode_utf8_decode_utf8(c.ts_utc@);
    encode_utf8_decode_utf8(a.event_type@);
    encode_utf8_decode_utf8(b.event_type@);
    encode_utf8_decode_utf8(c.event_type@);
    encode_utf8_decode_utf8(a.event_id@);
    encode_utf8_decode_utf8(b.event_id@);
    encode_utf8_decode_utf8(c.event_id@);
    let xs = seq![encode_utf8(a.ts_utc@), encode_utf8(b.ts_utc@), encode_utf8(c.ts_utc@)];
    let ys = seq![encode_utf8(a.event_type@), encode_utf8(b.event_type@), encode_utf8(c.event_type@)];
    let zs = seq![encode_utf8(a.event_id@), encode_utf8(b.event_id@), encode_utf8(c.event_id@)];
    lemma_order_facts3(xs);
    lemma_order_facts3(ys);
    lemma_order_facts3(zs);
}

/// Byte order facts over every pair and triple drawn from three sequences.
proof fn lemma_order_facts3(v: Seq<Seq<u8>>)
    requires
        v.len() == 3,
    ensures
        forall|i: int, j: int|
            0 <= i < 3 && 0 <= j < 3 ==> bytes_le(#[trigger] v[i], #[trigger] v[j]) || bytes_le(v[j], v[i]),
        forall|i: int, j: int|
            0 <= i < 3 && 0 <= j < 3 && bytes_le(#[trigger] v[i], #[trigger] v[j]) && bytes_le(v[j], v[i])
                ==> v[i] == v[j],
        forall|i: int, j: int, k: int|
            0 <= i < 3 && 0 <= j < 3 && 0 <= k < 3 && bytes_le(#[trigger] v[i], #[trigger] v[j])
                && bytes_le(v[j], #[trigger] v[k]) ==> bytes_le(v[i], v[k]),
{
    assert forall|i: int, j: int|
        0 <= i < 3 && 0 <= j < 3 implies bytes_le(#[trigger] v[i], #[trigger] v[j]) || bytes_le(v[j], v[i]) by {
        lemma_bytes_le_total(v[i], v[j]);
    }
    assert forall|i: int, j: int|
        0 <= i < 3 && 0 <= j < 3 && bytes_le(#[trigger] v[i], #[trigger] v[j]) && bytes_le(v[j], v[i])
            implies v[i] == v[j] by {
        lemma_bytes_le_antisym(v[i], v[j]);
    }
    assert forall|i: int, j: int, k: int|
        0 <= i < 3 && 0 <= j < 3 && 0 <= k < 3 && bytes_le(#[trigger] v[i], #[trigger] v[j]) && bytes_le(
            v[j],
            #[trigger] v[k],
        ) implies bytes_le(v[i], v[k]) by {
        lemma_bytes_le_trans(v[i], v[j], v[k]);
    }
}

/// Where the items of `s.remove(m)` come from.
proof fn lemma_remove_index(s: Seq<EvidenceEvent>, m: int)
    requires
        0 <= m < s.len(),
    ensures
        s.remove(m).len() == s.len() - 1,
        forall|q: int| 0 <= q < s.len() - 1 ==> #[trigger] s.remove(m)[q] == if q < m {
            s[q]
        } else {
            s[q + 1]
        },
{
    assert(s.remove(m) =~= s.subrange(0, m) + s.subrange(m + 1, s.len() as int));
}

/// The first least position holds an event that orders before or equal to all.
pub proof fn lemma_min_index_least(s: Seq<EvidenceEvent>)
    requires
        s.len() > 0,
    ensures
        0 <= min_index(s) < s.len(),
        forall|k: int| 0 <= k < s.len() ==> event_le(s[min_index(s)], #[trigger] s[k]),
    decreases s.len(),
{
    lemma_min_index_range(s);
    let m = min_index(s);
    if s.len() == 1 {
        lemma_event_le_facts(s[0], s[0], s[0]);
    } else {
        let t = s.drop_last();
        lemma_min_index_least(t);
        let mt = min_index(t);
        assert forall|k: int| 0 <= k < s.len() implies event_le(s[m], #[trigger] s[k]) by {
            lemma_event_le_facts(s[mt], s.last(), s[k]);
            lemma_event_le_facts(s.last(), s[mt], s[k]);
            lemma_event_le_facts(s.last(), s.last(), s.last());
            if k < s.len() - 1 {
                assert(s[k] == t[k]);
                assert(event_le(t[mt], t[k]));
            }
        }
    }
}

/// Ordering keeps the events and sorts them.
pub proof fn lemma_sorted_events(s: Seq<EvidenceEvent>)
    ensures
        sorted_events(s).len() == s.len(),
        forall|e: EvidenceEvent| sorted_events(s).contains(e) <==> s.contains(e),
        sorted_by(sorted_events(s), |a: EvidenceEvent, b: EvidenceEvent| event_le(a, b)),
        distinct_ids(s) ==> distinct_ids(sorted_events(s)),
    decreases s.len(),
{
    if s.len() > 0 {
        lemma_min_index_least(s);
        let m = min_index(s);
        let t = s.remove(m);
        lemma_remove_index(s, m);
        if distinct_ids(s) {
            assert forall|a: int, b: int|
                0 <= a < t.len() && 0 <= b < t.len() && a != b implies (#[trigger] t[a]).event_id@
                != (#[trigger] t[b]).event_id@ by {
                let a0 = if a < m { a } else { a + 1 };
                let b0 = if b < m { b } else { b + 1 };
                assert(t[a] == s[a0]);
                assert(t[b] == s[b0]);
            }
        }
        lemma_sorted_events(t);
        let r = sorted_events(s);
        let rt = sorted_events(t);
        assert(r == seq![s[m]] + rt);
        assert forall|e: EvidenceEvent| r.contains(e) <==> s.contains(e) by {
            if r.contains(e) {
                let k = choose|k: int| 0 <= k < r.len() && r[k] == e;
                if k > 0 {
                    assert(rt[k - 1] == e);
                    assert(rt.contains(e));
                    assert(t.contains(e));
                    let q = choose|q: int| 0 <= q < t.len() && t[q] == e;
                    if q < m {
                        assert(s[q] == e);
                    } else {
                        assert(s[q + 1] == e);
                    }
                } else {
                    assert(s[m] == e);
                }
            }
            if s.contains(e) {
                let q = choose|q: int| 0 <= q < s.len() && s[q] == e;
                if q == m {
                    assert(r[0] == e);
                } else {
                    let q2 = if q < m { q } else { q - 1 };
                    assert(t[q2] == e);
                    assert(t.contains(e));
                    let k = choose|k: int| 0 <= k < rt.len() && rt[k] == e;
                    assert(r[k + 1] == e);
                }
            }
        }
        if distinct_ids(s) {
            assert forall|a: int, b: int|
                0 <= a < r.len() && 0 <= b < r.len() && a != b implies (#[trigger] r[a]).event_id@
                != (#[trigger] r[b]).event_id@ by {
                if a > 0 && b > 0 {
                    assert(r[a] == rt[a - 1]);
                    assert(r[b] == rt[b - 1]);
                } else {
                    let o = if a == 0 { b } else { a };
                    assert(r[o] == rt[o - 1]);
                    assert(rt.contains(rt[o - 1]));
                    assert(t.contains(rt[o - 1]));
                    let q = choose|q: int| 0 <= q < t.len() && t[q] == rt[o - 1];
                    let q0 = if q < m { q } else { q + 1 };
                    assert(t[q] == s[q0]);
                    assert(q0 != m);
                    assert(s[q0].event_id@ != s[m].event_id@);
                    assert(r[0] == s[m]);
                }
            }
        }
        let el = |a: EvidenceEvent, b: EvidenceEvent| event_le(a, b);
        assert forall|i: int, j: int| 0 <= i < j < r.len() implies #[trigger] el(r[i], r[j]) by {
            if i == 0 {
                assert(rt[j - 1] == r[j]);
                assert(rt.contains(r[j]));
                assert(t.contains(r[j]));
                let q = choose|q: int| 0 <= q < t.len() && t[q] == r[j];
                let q0 = if q < m { q } else { q + 1 };
                assert(t[q] == s[q0]);
                assert(event_le(s[m], s[q0]));
            } else {
                assert(r[i] == rt[i - 1]);
                assert(r[j] == rt[j - 1]);
                assert(el(rt[i - 1], rt[j - 1]));
            }
        }
    }
}

/// Two sorted sequences of the same events, ids distinct, are equal.
pub proof fn lemma_sorted_events_unique(x: Seq<EvidenceEvent>, y: Seq<EvidenceEvent>)
    requires
        sorted_by(x, |a: EvidenceEvent, b: EvidenceEvent| event_le(a, b)),
        sorted_by(y, |a: EvidenceEvent, b: EvidenceEvent| event_le(a, b)),
        distinct_ids(x),
        distinct_ids(y),
        forall|e: EvidenceEvent| x.contains(e) <==> y.contains(e),
    ensures
        x == y,
    decreases x.len(),
{
    let el = |a: EvidenceEvent, b: EvidenceEvent| event_le(a, b);
    if x.len() == 0 {
        if y.len() > 0 {
            assert(y.contains(y[0]));
        }
        assert(x =~= y);
    } else {
        assert(x.contains(x[0]));
        if y.len() == 0 {
            assert(y.contains(x[0]));
        }
        assert(y.contains(y[0]));
        let i = choose|i: int| 0 <= i < y.len() && y[i] == x[0];
        let k = choose|k: int| 0 <= k < x.len() && x[k] == y[0];
        lemma_event_le_facts(x[0], y[0], x[0]);
        if k > 0 {
            assert(el(x[0], x[k]));
        }
        if i > 0 {
            assert(el(y[0], y[i]));
        }
        assert(x[0].event_id@ == y[0].event_id@);
        assert(k == 0);
        let xt = x.drop_first();
        let yt = y.drop_first();
        assert forall|e: EvidenceEvent| xt.contains(e) <==> yt.contains(e) by {
            if xt.contains(e) {
                let p = choose|p: int| 0 <= p < xt.len() && xt[p] == e;
                assert(x[p + 1] == e);
                assert(x.contains(e));
                let q = choose|q: int| 0 <= q < y.len() && y[q] == e;
                assert(q != 0);
                assert(yt[q - 1] == e);
            }
            if yt.contains(e) {
                let p = choose|p: int| 0 <= p < yt.len() && yt[p] == e;
                assert(y[p + 1] == e);
                assert(y.contains(e));
                let q = choose|q: int| 0 <= q < x.len() && x[q] == e;
                assert(q != 0) by {
                    if q == 0 {
                        assert(y[p + 1] == y[0]);
                    }
                }
                assert(xt[q - 1] == e);
            }
        }
        assert(sorted_by(xt, el));
        assert(sorted_by(yt, el));
        assert(distinct_ids(xt));
        assert(distinct_ids(yt));
        lemma_sorted_events_unique(xt, yt);
        assert(x =~= seq![x[0]] + xt);
        assert(y =~= seq![y[0]] + yt);
    }
}

/// For each `event_id`, the latest timestamp is carried by one event only:
/// two events sharing id and timestamp are both outdated by a later one.
pub open spec fn latest_ts_unique(evs: Seq<EvidenceEvent>) -> bool {
    forall|i: int, j: int|
        0 <= i < evs.len() && 0 <= j < evs.len() && i != j && (#[trigger] evs[i]).event_id@
            == (#[trigger] evs[j]).event_id@ && evs[i].ts_utc@ == evs[j].ts_utc@ ==> exists|k: int|
            0 <= k < evs.len() && evs[k].event_id@ == evs[i].event_id@ && ts_before(
                evs[i],
                #[trigger] evs[k],
            )
}

/// `e` is one of the events and every other event with its id is older.
pub open spec fn latest_of_id(evs: Seq<EvidenceEvent>, e: EvidenceEvent) -> bool {
    &&& evs.contains(e)
    &&& forall|f: EvidenceEvent|
        #[trigger] evs.contains(f) && f.event_id@ == e.event_id@ && f.ts_utc@ != e.ts_utc@ ==> ts_before(
            f,
            e,
        )
}

/// Two events cannot each be strictly older than the other.
proof fn lemma_ts_before_asym(a: EvidenceEvent, b: EvidenceEvent)
    ensures
        !(ts_before(a, b) && ts_before(b, a)),
{
    if ts_before(a, b) && ts_before(b, a) {
        lemma_bytes_le_antisym(encode_utf8(a.ts_utc@), encode_utf8(b.ts_utc@));
        encode_utf8_decode_utf8(a.ts_utc@);
        encode_utf8_decode_utf8(b.ts_utc@);
    }
}

/// The kept events are the kept positions' events, and their ids are distinct.
pub proof fn lemma_kept_events(evs: Seq<EvidenceEvent>, n: int)
    requires
        0 <= n <= evs.len(),
    ensures
        forall|e: EvidenceEvent|
            kept_events(evs, n).contains(e) <==> exists|i: int|
                0 <= i < n && #[trigger] evs[i] == e && is_kept(evs, i),
        distinct_ids(kept_events(evs, n)),
    decreases n,
{
    if n > 0 {
        lemma_kept_events(evs, n - 1);
        let p = kept_events(evs, n - 1);
        let q = kept_events(evs, n);
        assert forall|e: EvidenceEvent| q.contains(e) <==> exists|i: int|
            0 <= i < n && #[trigger] evs[i] == e && is_kept(evs, i) by {
            if q.contains(e) {
                let k = choose|k: int| 0 <= k < q.len() && q[k] == e;
                if k < p.len() {
                    assert(p[k] == q[k]);
                    assert(p.contains(e));
                } else {
                    assert(evs[n - 1] == e);
                }
            }
            if exists|i: int| 0 <= i < n && #[trigger] evs[i] == e && is_kept(evs, i) {
                let i = choose|i: int| 0 <= i < n && #[trigger] evs[i] == e && is_kept(evs, i);
                if i < n - 1 {
                    assert(p.contains(e));
                    let k = choose|k: int| 0 <= k < p.len() && p[k] == e;
                    assert(q[k] == e);
                } else {
                    assert(q[q.len() - 1] == e);
                }
            }
        }
        if is_kept(evs, n - 1) {
            assert forall|a: int, b: int|
                0 <= a < q.len() && 0 <= b < q.len() && a != b implies (#[trigger] q[a]).event_id@
                != (#[trigger] q[b]).event_id@ by {
                if a < p.len() && b < p.len() {
                    assert(q[a] == p[a] && q[b] == p[b]);
                } else {
                    let o = if a < p.len() { a } else { b };
                    assert(q[o] == p[o]);
                    assert(p.contains(p[o]));
                    let i = choose|i: int| 0 <= i < n - 1 && #[trigger] evs[i] == p[o] && is_kept(evs, i);
                    let l = n - 1;
                    if evs[i].event_id@ == evs[l].event_id@ {
                        lemma_ts_before_asym(evs[i], evs[l]);
                        assert(false);
                    }
                }
            }
        }
    } else {
        assert(kept_events(evs, 0) =~= Seq::<EvidenceEvent>::empty());
    }
}

/// When each id's latest timestamp is unique, being kept depends on the
/// events present, not on their positions.
proof fn lemma_kept_by_content(evs: Seq<EvidenceEvent>)
    requires
        latest_ts_unique(evs),
    ensures
        forall|e: EvidenceEvent|
            kept_events(evs, evs.len() as int).contains(e) <==> latest_of_id(evs, e),
{
    lemma_kept_events(evs, evs.len() as int);
    assert forall|e: EvidenceEvent|
        kept_events(evs, evs.len() as int).contains(e) <==> latest_of_id(evs, e) by {
        if kept_events(evs, evs.len() as int).contains(e) {
            let i = choose|i: int| 0 <= i < evs.len() && #[trigger] evs[i] == e && is_kept(evs, i);
            assert(evs.contains(e));
            assert forall|f: EvidenceEvent|
                #[trigger] evs.contains(f) && f.event_id@ == e.event_id@ && f.ts_utc@ != e.ts_utc@
                    implies ts_before(f, e) by {
                let j = choose|j: int| 0 <= j < evs.len() && evs[j] == f;
                assert(j != i);
            }
        }
        if latest_of_id(evs, e) {
            let i = choose|i: int| 0 <= i < evs.len() && evs[i] == e;
            assert forall|j: int|
                0 <= j < evs.len() && j != i && (#[trigger] evs[j]).event_id@ == evs[i].event_id@
                    implies (ts_before(evs[j], evs[i]) || (evs[j].ts_utc@ == evs[i].ts_utc@ && j < i)) by {
                assert(evs.contains(evs[j]));
                if evs[j].ts_utc@ == evs[i].ts_utc@ {
                    let k = choose|k: int|
                        0 <= k < evs.len() && evs[k].event_id@ == evs[i].event_id@ && ts_before(
                            evs[i],
                            #[trigger] evs[k],
                        );
                    assert(evs.contains(evs[k]));
                    lemma_ts_before_asym(evs[i], evs[k]);
                }
            }
            assert(is_kept(evs, i));
        }
    }
}

/// The order of a run's events in the log does not change its bundle: two
/// sequences holding the same events give the same bundle events and digest,
/// provided each `event_id`'s latest `ts_utc` is carried by one event only
/// (on a tie there, the later-appended one is kept).
pub proof fn lemma_bundle_order_independent(
    r1: Seq<EvidenceEvent>,
    r2: Seq<EvidenceEvent>,
    run_id: Seq<char>,
    policy_version: Seq<char>,
    log_path: Seq<char>,
)
    requires
        latest_ts_unique(r1),
        latest_ts_unique(r2),
        forall|e: EvidenceEvent| r1.contains(e) <==> r2.contains(e),
    ensures
        bundle_events(r1) == bundle_events(r2),
        bundle_digest(run_id, policy_version, log_path, artifact_path(bundle_events(r1)), bundle_events(r1))
            == bundle_digest(
            run_id,
            policy_version,
            log_path,
            artifact_path(bundle_events(r2)),
            bundle_events(r2),
        ),
{
    lemma_kept_by_content(r1);
    lemma_kept_by_content(r2);
    lemma_kept_events(r1, r1.len() as int);
    lemma_kept_events(r2, r2.len() as int);
    let k1 = kept_events(r1, r1.len() as int);
    let k2 = kept_events(r2, r2.len() as int);
    assert forall|e: EvidenceEvent| k1.contains(e) <==> k2.contains(e) by {
        assert(latest_of_id(r1, e) <==> latest_of_id(r2, e));
    }
    lemma_sorted_events(k1);
    lemma_sorted_events(k2);
    assert forall|e: EvidenceEvent| sorted_events(k1).contains(e) <==> sorted_events(k2).contains(e) by {
        assert(k1.contains(e) <==> k2.contains(e));
    }
    lemma_sorted_events_unique(sorted_events(k1), sorted_events(k2));
}

} // verus!
