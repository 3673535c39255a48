//! Admission of events into the ledger.
use crate::chain::{append_record, record_hash_of, tail_hash, StoredRecord};
use crate::event::{event_text, EvidenceEvent};
use crate::policy::{enforce, has_event_id, reject_duplicate_event_id, verdict, Rejection};
use vstd::prelude::*;

verus! {

/// Runs the policy checks and the duplicate check on `event` against
/// `history` (the ledger's events, in append order), and appends it to `log`
/// when both pass.
pub fn submit(log: &mut Vec<StoredRecord>, history: &Vec<EvidenceEvent>, event: &EvidenceEvent) -> (r:
    Result<StoredRecord, Rejection>)
    ensures
        verdict(*event, history@) matches Err(x) ==> r == Err::<StoredRecord, Rejection>(x),
        verdict(*event, history@) is Ok && has_event_id(history@, event.run_id@, event.event_id@)
            ==> r == Err::<StoredRecord, Rejection>(Rejection::DuplicateEvent),
        r is Err ==> final(log)@ == old(log)@,
        r is Ok <==> (verdict(*event, history@) is Ok && !has_event_id(
            history@,
            event.run_id@,
            event.event_id@,
        )),
        r matches Ok(rec) ==> {
            &&& rec.prev_hash@ == tail_hash(old(log)@)
            &&& rec.event_json@ == event_text(*event)
            &&& rec.record_hash@ == record_hash_of(rec.prev_hash@, rec.event_json@)
            &&& final(log)@ == old(log)@.push(rec)
        },
{
    match enforce(event, history) {
        Err(x) => {
            return Err(x);
        },
        Ok(()) => {},
    }
    match reject_duplicate_event_id(event, history) {
        Err(x) => {
            return Err(x);
        },
        Ok(()) => {},
    }
    Ok(append_record(log, event))
}

} // verus!
