//! Snapshot and restore: identifiers, queue codec, and the upgrade pair.

use certificate_orchestrator::codec::{decode_queue, encode_queue};
use certificate_orchestrator::id::generate_id;
use certificate_orchestrator::orchestrator::Orchestrator;
use certificate_orchestrator::queue::TimeQueue;
use certificate_orchestrator::registration::EncryptedPair;

fn root() -> String {
    "root-principal".to_owned()
}

fn worker() -> String {
    "worker-principal".to_owned()
}

fn engine(seed: u128) -> Orchestrator {
    let mut o = Orchestrator::new(vec![root()], seed);
    o.add_allowed_principal(&root(), worker()).unwrap();
    o
}

#[test]
fn identifiers_are_deterministic_and_distinct() {
    assert_eq!(generate_id(7, 0), generate_id(7, 0));
    assert_ne!(generate_id(7, 0), generate_id(7, 1));
    assert_ne!(generate_id(7, 1), generate_id(7, 2));
    assert_eq!(generate_id(7, 3).len(), 64);
}

#[test]
fn identifier_bytes_are_hex_encoded() {
    // seed 0, counter 0: the first two words are zero, the last two are the
    // salts, so the digits are predictable end to end.
    assert_eq!(
        generate_id(0, 0),
        "000000000000000000000000000000009e3779b97f4a7c156a09e667f3bcc908"
    );
}

#[test]
fn queue_snapshot_round_trips() {
    let mut q = TimeQueue::new();
    q.push_or_update("bravo".to_owned(), 20);
    q.push_or_update("alpha".to_owned(), 10);
    q.push_or_update("charlie".to_owned(), 10);
    let bytes = encode_queue(&q);
    let back = decode_queue(&bytes).expect("a valid snapshot must decode");
    assert_eq!(back.len(), 3);
    // Order is preserved exactly: ascending by (time, key).
    assert_eq!(back.get(0), (10, "alpha".to_owned()));
    assert_eq!(back.get(1), (10, "charlie".to_owned()));
    assert_eq!(back.get(2), (20, "bravo".to_owned()));
}

#[test]
fn empty_queue_snapshot_round_trips() {
    let q = TimeQueue::new();
    let bytes = encode_queue(&q);
    let back = decode_queue(&bytes).expect("an empty snapshot must decode");
    assert_eq!(back.len(), 0);
}

#[test]
fn mangled_snapshots_are_refused() {
    assert!(decode_queue(&vec![]).is_none());
    assert!(decode_queue(&vec![0, 1, 2]).is_none());
    let mut q = TimeQueue::new();
    q.push_or_update("alpha".to_owned(), 10);
    let mut bytes = encode_queue(&q);
    bytes.pop();
    assert!(decode_queue(&bytes).is_none(), "a truncated snapshot must be refused");
    let mut q2 = TimeQueue::new();
    q2.push_or_update("a".to_owned(), 2);
    let mut doctored = encode_queue(&q2);
    doctored.push(0);
    assert!(decode_queue(&doctored).is_none(), "trailing bytes must be refused");
}

#[test]
fn upgrade_preserves_queue_contents_and_order() {
    let mut o = engine(11);
    let id1 = o
        .create_registration(&worker(), &"a.com".to_owned(), &"owner".to_owned(), 100)
        .unwrap();
    let id2 = o
        .create_registration(&worker(), &"b.com".to_owned(), &"owner".to_owned(), 50)
        .unwrap();
    let id3 = o
        .create_registration(&worker(), &"c.com".to_owned(), &"owner".to_owned(), 70)
        .unwrap();
    assert_eq!(o.dispense_task(&worker(), 60), Ok(id2.clone()));
    let (tasks, expirations, retries) = o.pre_upgrade();
    let restored = o.post_upgrade(&tasks, &expirations, &retries);
    assert!(restored, "the engine must accept its own snapshot");
    // The task queue still serves the same work in the same order.
    assert_eq!(o.dispense_task(&worker(), 100), Ok(id3));
    assert_eq!(o.dispense_task(&worker(), 100), Ok(id1));
    // The lease on id2 survived the upgrade.
    let due = 60 + certificate_orchestrator::orchestrator::IN_PROGRESS_TTL_NS;
    o.retry(due);
    assert_eq!(o.dispense_task(&worker(), due), Ok(id2));
}

#[test]
fn restore_refuses_snapshots_of_another_engine() {
    let mut donor = engine(1);
    donor
        .create_registration(&worker(), &"a.com".to_owned(), &"owner".to_owned(), 5)
        .unwrap();
    let (tasks, expirations, retries) = donor.pre_upgrade();
    let mut other = engine(2);
    other
        .create_registration(&worker(), &"b.com".to_owned(), &"owner".to_owned(), 5)
        .unwrap();
    assert!(!other.post_upgrade(&tasks, &expirations, &retries));
    // The refused restore changed nothing.
    assert!(other.peek_task(&worker(), 5).is_ok());
}

#[test]
fn certificates_survive_independent_of_queue_snapshots() {
    let mut o = engine(11);
    let id = o
        .create_registration(&worker(), &"a.com".to_owned(), &"owner".to_owned(), 5)
        .unwrap();
    o.upload_certificate(&worker(), &id, EncryptedPair(vec![1, 2], vec![3])).unwrap();
    let (tasks, expirations, retries) = o.pre_upgrade();
    assert!(o.post_upgrade(&tasks, &expirations, &retries));
    assert_eq!(o.export_certificates(&worker()).unwrap().len(), 1);
}
