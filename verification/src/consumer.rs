//! The stream consumer's decision rules: what the ingest loop does with each
//! poll of the event stream. The loop itself — connecting to the broker,
//! polling with a bounded wait — is unverified plumbing around these rules;
//! every decision it takes comes from here.
//!
//! Offsets are never committed, so a restart replays the stream from the
//! earliest retained event; the store's overwrite semantics make that replay
//! idempotent.

use vstd::prelude::*;
use crate::codec::decode_projection;
use crate::store::Store;
use crate::store::lookup;
use crate::store::sorted_insert;

verus! {

/// One poll of the stream, as the consumer sees it.
pub enum StreamEvent {
    /// Nothing arrived within the bounded wait.
    Empty,
    /// The poll failed; never fatal for the loop.
    Failure,
    /// A message, whose key or value the stream may have omitted.
    Message { key: Option<Vec<u8>>, value: Option<Vec<u8>> },
}

/// What the ingest loop does with one poll.
pub enum IngestDecision {
    /// Nothing to do; poll again.
    Ignore,
    /// Report the failure and poll again.
    Report,
    /// Key or value missing: drop the message, counted, not retried.
    Drop,
    /// Hand the pair to the storage engine's dual write.
    Persist { key: Vec<u8>, value: Vec<u8> },
}

/// The decision for one poll: a well-formed message is persisted, a message
/// missing its key or its value is dropped, an empty poll is ignored, and a
/// poll failure is reported and survived.
pub fn classify(ev: StreamEvent) -> (r: IngestDecision)
    ensures
        (ev matches StreamEvent::Empty ==> r == IngestDecision::Ignore),
        (ev matches StreamEvent::Failure ==> r == IngestDecision::Report),
        (ev matches StreamEvent::Message { key, value } ==> (match (key, value) {
            (Some(k), Some(v)) => r == (IngestDecision::Persist { key: k, value: v }),
            _ => r == IngestDecision::Drop,
        })),
{
    match ev {
        StreamEvent::Empty => IngestDecision::Ignore,
        StreamEvent::Failure => IngestDecision::Report,
        StreamEvent::Message { key: Some(k), value: Some(v) } => IngestDecision::Persist {
            key: k,
            value: v,
        },
        StreamEvent::Message { .. } => IngestDecision::Drop,
    }
}

/// How many times a failed point write against the durable store is
/// attempted before its error is surfaced for that one message.
pub const WRITE_ATTEMPTS: u64 = 3;

/// Whether a failed point write should be tried again: a bounded number of
/// attempts, so that one bad write cannot halt ingestion, after which the
/// error is surfaced for that message and the loop goes on with the next.
pub fn retry_write(attempts_made: u64) -> (r: bool)
    ensures
        r == (attempts_made < WRITE_ATTEMPTS),
{
    attempts_made < WRITE_ATTEMPTS
}

/// A counter that stops at its ceiling rather than wrap.
pub open spec fn bumped(n: u64) -> u64 {
    if n < u64::MAX {
        (n + 1) as u64
    } else {
        n
    }
}

/// Counters the ingest loop surfaces instead of failing: dropped malformed
/// messages, survived poll failures, and messages stored.
pub struct IngestStats {
    pub dropped: u64,
    pub poll_failures: u64,
    pub stored: u64,
}

impl IngestStats {
    /// All counters at zero.
    pub fn new() -> (r: IngestStats)
        ensures
            r.dropped == 0,
            r.poll_failures == 0,
            r.stored == 0,
    {
        IngestStats { dropped: 0, poll_failures: 0, stored: 0 }
    }
}

fn bump(n: &mut u64)
    ensures
        *final(n) == bumped(*old(n)),
{
    if *n < u64::MAX {
        *n += 1;
    }
}

/// One turn of the ingest loop against the in-memory engine: classify the
/// poll and act on it. A malformed message, an empty poll and a poll failure
/// leave the store exactly as it was; a well-formed message goes through the
/// dual write.
pub fn ingest_step(store: &mut Store, stats: &mut IngestStats, ev: StreamEvent) -> (stored: bool)
    requires
        old(store).wf(),
    ensures
        final(store).wf(),
        (ev matches StreamEvent::Empty ==> *final(store) == *old(store) && *final(stats) == *old(
            stats,
        )),
        (ev matches StreamEvent::Failure ==> *final(store) == *old(store) && *final(stats)
            == (IngestStats {
            poll_failures: bumped(old(stats).poll_failures),
            ..*old(stats)
        })),
        (ev matches StreamEvent::Message { key, value } ==> (match (key, value) {
            (Some(k), Some(v)) => stored && final(store).raw() == sorted_insert(
                old(store).raw(),
                k@,
                v@,
            ) && lookup(final(store).raw(), k@) == Some(v@) && (decode_projection(v@) is Some
                ==> final(store).proj() == sorted_insert(old(store).proj(), k@, v@) && lookup(
                final(store).proj(),
                k@,
            ) == Some(v@)) && (decode_projection(v@) is None ==> final(store).proj() == old(
                store,
            ).proj()) && *final(stats) == (IngestStats { stored: bumped(old(stats).stored), ..*old(
                stats,
            ) }),
            _ => !stored && *final(store) == *old(store) && *final(stats) == (IngestStats {
                dropped: bumped(old(stats).dropped),
                ..*old(stats)
            }),
        })),
        !(ev matches StreamEvent::Message { key: Some(_), value: Some(_) }) ==> *final(store)
            == *old(store),
{
    match classify(ev) {
        IngestDecision::Ignore => false,
        IngestDecision::Report => {
            bump(&mut stats.poll_failures);
            false
        }
        IngestDecision::Drop => {
            bump(&mut stats.dropped);
            false
        }
        IngestDecision::Persist { key, value } => {
            store.write(&key, &value);
            bump(&mut stats.stored);
            true
        }
    }
}

} // verus!
