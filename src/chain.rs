//! The append-only, hash-chained record store and its verification.
use crate::digest::{digest_hex, is_lower_hex, lemma_hex_injective, sha256_hex, sha256_of};
use crate::event::{event_json, event_text, EvidenceEvent};
use vstd::prelude::*;
use vstd::utf8::{encode_scalar, encode_utf8, encode_utf8_decode_utf8};

verus! {

/// One ledger entry: an event's stored JSON text bound to the hash before it.
#[derive(Debug)]
pub struct StoredRecord {
    pub prev_hash: String,
    pub record_hash: String,
    pub event_json: String,
}

/// The sentinel that stands in for the hash before the first record.
pub open spec fn genesis() -> Seq<char> {
    seq!['G', 'E', 'N', 'E', 'S', 'I', 'S']
}

/// The bytes a record hash is taken over: `prev_hash`, a newline, `event_json`.
pub open spec fn link_bytes(prev_hash: Seq<char>, event_json: Seq<char>) -> Seq<u8> {
    encode_utf8(prev_hash) + seq![10u8] + encode_utf8(event_json)
}

/// The record hash that binds `event_json` to `prev_hash`.
pub open spec fn record_hash_of(prev_hash: Seq<char>, event_json: Seq<char>) -> Seq<char> {
    digest_hex(link_bytes(prev_hash, event_json))
}

/// The hash a record at position `i` must name as its predecessor.
pub open spec fn expected_prev(log: Seq<StoredRecord>, i: int) -> Seq<char> {
    if i == 0 {
        genesis()
    } else {
        log[i - 1].record_hash@
    }
}

/// Record `i` links to its predecessor and its hash matches its stored bytes.
pub open spec fn record_ok(log: Seq<StoredRecord>, i: int) -> bool {
    &&& log[i].prev_hash@ == expected_prev(log, i)
    &&& log[i].record_hash@ == record_hash_of(log[i].prev_hash@, log[i].event_json@)
}

/// Every record of the log is intact.
pub open spec fn chain_valid(log: Seq<StoredRecord>) -> bool {
    forall|i: int| 0 <= i < log.len() ==> record_ok(log, i)
}

/// The hash a new record is chained to: the last record hash, or the sentinel.
pub open spec fn tail_hash(log: Seq<StoredRecord>) -> Seq<char> {
    if log.len() == 0 {
        genesis()
    } else {
        log.last().record_hash@
    }
}

/// The chain head after appending the given event texts, one by one, from empty.
pub open spec fn chain_head(event_jsons: Seq<Seq<char>>) -> Seq<char>
    decreases event_jsons.len(),
{
    if event_jsons.len() == 0 {
        genesis()
    } else {
        record_hash_of(chain_head(event_jsons.drop_last()), event_jsons.last())
    }
}

/// Which of a record's two checks failed.
#[derive(Debug, Clone, Copy, PartialEq, Eq)]
pub enum BreakKind {
    PrevHash,
    RecordHash,
}

/// The first place where the chain disagrees with its recomputation.
#[derive(Debug)]
pub struct ChainBreak {
    /// One-based position of the record among the non-blank lines.
    pub line: usize,
    pub kind: BreakKind,
    pub expected: String,
    pub actual: String,
}

/// The genesis sentinel as a string.
pub fn genesis_hash() -> (r: String)
    ensures
        r@ == genesis(),
{
    let r = "GENESIS".to_owned();
    proof {
        reveal_strlit("GENESIS");
    }
    r
}

/// `SHA-256(prev_hash || "\n" || event_json)` in lowercase hex.
pub fn compute_record_hash(prev_hash: &str, event_json: &str) -> (r: String)
    ensures
        r@ == record_hash_of(prev_hash@, event_json@),
        r@.len() == 64,
        is_lower_hex(r@),
{
    let p = prev_hash.as_bytes();
    let e = event_json.as_bytes();
    let mut bytes: Vec<u8> = Vec::new();
    let mut i: usize = 0;
    while i < p.len()
        invariant
            i <= p@.len(),
            bytes@ == p@.subrange(0, i as int),
        decreases p@.len() - i,
    {
        bytes.push(p[i]);
        i = i + 1;
    }
    bytes.push(10u8);
    let mut j: usize = 0;
    while j < e.len()
        invariant
            j <= e@.len(),
            bytes@ == p@ + seq![10u8] + e@.subrange(0, j as int),
        decreases e@.len() - j,
    {
        bytes.push(e[j]);
        j = j + 1;
    }
    assert(bytes@ =~= link_bytes(prev_hash@, event_json@));
    sha256_hex(bytes.as_slice())
}

/// The hash that the next appended record will name as its predecessor.
pub fn read_last_hash(log: &Vec<StoredRecord>) -> (r: String)
    ensures
        r@ == tail_hash(log@),
{
    if log.len() == 0 {
        genesis_hash()
    } else {
        log[log.len() - 1].record_hash.clone()
    }
}

/// Serializes `event` once and appends it as a new record chained to the tail.
pub fn append_record(log: &mut Vec<StoredRecord>, event: &EvidenceEvent) -> (r: StoredRecord)
    ensures
        r.prev_hash@ == tail_hash(old(log)@),
        r.event_json@ == event_text(*event),
        r.record_hash@ == record_hash_of(r.prev_hash@, r.event_json@),
        final(log)@ == old(log)@.push(r),
{
    let event_json = event_json(event);
    let prev_hash = read_last_hash(log);
    let record_hash = compute_record_hash(prev_hash.as_str(), event_json.as_str());
    let rec = StoredRecord {
        prev_hash: prev_hash.clone(),
        record_hash: record_hash.clone(),
        event_json: event_json.clone(),
    };
    log.push(rec);
    StoredRecord { prev_hash, record_hash, event_json }
}

/// Replays the log from the start and reports the first record whose link or
/// digest disagrees with the recomputation from its stored bytes.
pub fn verify_chain(log: &Vec<StoredRecord>) -> (r: Result<(), ChainBreak>)
    ensures
        r is Ok <==> chain_valid(log@),
        r matches Err(b) ==> {
            let i = b.line - 1;
            &&& 1 <= b.line <= log@.len()
            &&& forall|j: int| 0 <= j < i ==> record_ok(log@, j)
            &&& !record_ok(log@, i)
            &&& b.kind == BreakKind::PrevHash ==> {
                &&& log@[i].prev_hash@ != expected_prev(log@, i)
                &&& b.expected@ == expected_prev(log@, i)
                &&& b.actual@ == log@[i].prev_hash@
            }
            &&& b.kind == BreakKind::RecordHash ==> {
                &&& log@[i].prev_hash@ == expected_prev(log@, i)
                &&& b.expected@ == record_hash_of(log@[i].prev_hash@, log@[i].event_json@)
                &&& b.actual@ == log@[i].record_hash@
            }
        },
{
    let mut expected = genesis_hash();
    let mut i: usize = 0;
    while i < log.len()
        invariant
            i <= log@.len(),
            expected@ == expected_prev(log@, i as int),
            forall|j: int| 0 <= j < i ==> record_ok(log@, j),
        decreases log@.len() - i,
    {
        let rec = &log[i];
        if rec.prev_hash != expected {
            assert(!record_ok(log@, i as int));
            return Err(
                ChainBreak {
                    line: i + 1,
                    kind: BreakKind::PrevHash,
                    expected,
                    actual: rec.prev_hash.clone(),
                },
            );
        }
        let recomputed = compute_record_hash(rec.prev_hash.as_str(), rec.event_json.as_str());
        if rec.record_hash != recomputed {
            assert(!record_ok(log@, i as int));
            return Err(
                ChainBreak {
                    line: i + 1,
                    kind: BreakKind::RecordHash,
                    expected: recomputed,
                    actual: rec.record_hash.clone(),
                },
            );
        }
        expected = rec.record_hash.clone();
        i = i + 1;
    }
    Ok(())
}

/// A log built by appending event texts one at a time from empty carries, at
/// each position, the hash given by the chain formula, and it verifies.
pub proof fn lemma_chain_determinism(log: Seq<StoredRecord>, event_jsons: Seq<Seq<char>>)
    requires
        log.len() == event_jsons.len(),
        forall|i: int|
            0 <= i < log.len() ==> {
                &&& (#[trigger] log[i]).prev_hash@ == tail_hash(log.take(i))
                &&& log[i].event_json@ == event_jsons[i]
                &&& log[i].record_hash@ == record_hash_of(log[i].prev_hash@, event_jsons[i])
            },
    ensures
        forall|i: int|
            0 <= i < log.len() ==> (#[trigger] log[i]).record_hash@ == chain_head(
                event_jsons.take(i + 1),
            ),
        chain_valid(log),
    decreases log.len(),
{
    if log.len() > 0 {
        let n = log.len() - 1;
        let l0 = log.drop_last();
        let e0 = event_jsons.drop_last();
        assert forall|i: int| 0 <= i < l0.len() implies {
            &&& (#[trigger] l0[i]).prev_hash@ == tail_hash(l0.take(i))
            &&& l0[i].event_json@ == e0[i]
            &&& l0[i].record_hash@ == record_hash_of(l0[i].prev_hash@, e0[i])
        } by {
            assert(l0.take(i) =~= log.take(i));
            assert(log[i] == l0[i]);
        }
        lemma_chain_determinism(l0, e0);
        assert forall|i: int| 0 <= i < log.len() implies (#[trigger] log[i]).record_hash@
            == chain_head(event_jsons.take(i + 1)) by {
            if i < n {
                assert(log[i] == l0[i]);
                assert(event_jsons.take(i + 1) =~= e0.take(i + 1));
            } else {
                let t = event_jsons.take(i + 1);
                assert(t.drop_last() =~= e0);
                assert(t.last() == event_jsons[n]);
                assert(chain_head(t) == record_hash_of(chain_head(e0), event_jsons[n]));
                if n == 0 {
                    assert(log.take(0) =~= Seq::<StoredRecord>::empty());
                    assert(e0 =~= Seq::<Seq<char>>::empty());
                } else {
                    assert(log.take(n).last() == l0[n - 1]);
                    assert(e0.take(n) =~= e0);
                    assert(l0[n - 1].record_hash@ == chain_head(e0.take(n)));
                }
                assert(log[n].prev_hash@ == chain_head(e0));
            }
        }
        assert forall|i: int| 0 <= i < log.len() implies record_ok(log, i) by {
            if i < n {
                assert(log[i] == l0[i]);
                assert(record_ok(l0, i));
                if i > 0 {
                    assert(log[i - 1] == l0[i - 1]);
                }
            } else {
                if n == 0 {
                    assert(log.take(0) =~= Seq::<StoredRecord>::empty());
                } else {
                    assert(log.take(n).last() == log[n - 1]);
                }
            }
        }
    }
}

/// Changing one field of one record of a valid log (its `prev_hash`, its
/// `record_hash`, or its stored event text, where the digest over the linked
/// bytes then differs) leaves every record before it intact and breaks that record.
pub proof fn lemma_tamper_detected(log: Seq<StoredRecord>, k: int, changed: StoredRecord)
    requires
        chain_valid(log),
        0 <= k < log.len(),
        changed.prev_hash@ != log[k].prev_hash@ || (changed.prev_hash@ == log[k].prev_hash@
            && changed.event_json@ == log[k].event_json@ && changed.record_hash@
            != log[k].record_hash@) || (changed.prev_hash@ == log[k].prev_hash@
            && changed.record_hash@ == log[k].record_hash@ && sha256_of(
            link_bytes(log[k].prev_hash@, changed.event_json@),
        ) != sha256_of(link_bytes(log[k].prev_hash@, log[k].event_json@))),
    ensures
        forall|j: int| 0 <= j < k ==> record_ok(log.update(k, changed), j),
        !record_ok(log.update(k, changed), k),
        !chain_valid(log.update(k, changed)),
{
    let t = log.update(k, changed);
    assert forall|j: int| 0 <= j < k implies record_ok(t, j) by {
        assert(record_ok(log, j));
        assert(t[j] == log[j]);
        if j > 0 {
            assert(t[j - 1] == log[j - 1]);
        }
    }
    assert(record_ok(log, k));
    if k > 0 {
        assert(t[k - 1] == log[k - 1]);
    }
    assert(expected_prev(t, k) == expected_prev(log, k));
    assert(t[k] == changed);
    if changed.prev_hash@ == log[k].prev_hash@ && changed.record_hash@ == log[k].record_hash@
        && changed.event_json@ != log[k].event_json@ {
        if record_ok(t, k) {
            let a = sha256_of(link_bytes(log[k].prev_hash@, changed.event_json@));
            let b = sha256_of(link_bytes(log[k].prev_hash@, log[k].event_json@));
            lemma_hex_injective(a, b);
        }
    }
    assert(!record_ok(t, k));
}

/// UTF-8 encoding distributes over concatenation.
pub proof fn lemma_encode_concat(a: Seq<char>, b: Seq<char>)
    ensures
        encode_utf8(a + b) == encode_utf8(a) + encode_utf8(b),
    decreases a.len(),
{
    if a.len() > 0 {
        assert((a + b).drop_first() =~= a.drop_first() + b);
        assert((a + b)[0] == a[0]);
        lemma_encode_concat(a.drop_first(), b);
        assert(encode_utf8(a + b) =~= encode_utf8(a) + encode_utf8(b));
    } else {
        assert(a + b =~= b);
        assert(encode_utf8(a) + encode_utf8(b) =~= encode_utf8(b));
    }
}

/// The bytes a record hash is taken over determine both the predecessor hash
/// and the event text, when the predecessor hash holds no newline: distinct
/// pairs are hashed over distinct bytes.
pub proof fn lemma_link_bytes_injective(p1: Seq<char>, e1: Seq<char>, p2: Seq<char>, e2: Seq<char>)
    requires
        !p1.contains('\n'),
        !p2.contains('\n'),
        link_bytes(p1, e1) == link_bytes(p2, e2),
    ensures
        p1 == p2,
        e1 == e2,
{
    let nl = seq!['\n'];
    assert(encode_utf8(nl) == seq![10u8]) by {
        assert(nl.drop_first() =~= Seq::<char>::empty());
        assert(('\n' as u32) == 10u32);
        assert(10u32 & 0x7F == 10u32) by (bit_vector);
        assert(encode_scalar(nl[0] as u32) =~= seq![10u8]);
        assert(encode_utf8(nl.drop_first()) =~= Seq::<u8>::empty());
        assert(encode_utf8(nl) =~= encode_scalar(nl[0] as u32) + encode_utf8(nl.drop_first()));
    }
    lemma_encode_concat(p1, nl);
    lemma_encode_concat(p1 + nl, e1);
    lemma_encode_concat(p2, nl);
    lemma_encode_concat(p2 + nl, e2);
    let x = p1 + nl + e1;
    let y = p2 + nl + e2;
    assert(encode_utf8(x) == link_bytes(p1, e1));
    assert(encode_utf8(y) == link_bytes(p2, e2));
    encode_utf8_decode_utf8(x);
    encode_utf8_decode_utf8(y);
    assert(x == y);
    if p1.len() < p2.len() {
        assert(x[p1.len() as int] == '\n');
        assert(y[p1.len() as int] == p2[p1.len() as int]);
        assert(p2.contains(p2[p1.len() as int]));
    }
    if p2.len() < p1.len() {
        assert(y[p2.len() as int] == '\n');
        assert(x[p2.len() as int] == p1[p2.len() as int]);
        assert(p1.contains(p1[p2.len() as int]));
    }
    assert(p1 =~= x.subrange(0, p1.len() as int));
    assert(p2 =~= y.subrange(0, p2.len() as int));
    assert(e1 =~= x.subrange(p1.len() as int + 1, x.len() as int));
    assert(e2 =~= y.subrange(p2.len() as int + 1, y.len() as int));
}

} // verus!
