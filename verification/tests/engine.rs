//! End-to-end behaviour of the orchestration engine.

use certificate_orchestrator::orchestrator::{
    CreateError, DispenseTaskError, GetError, ModifyAllowedPrincipalError, Orchestrator,
    QueueTaskError, UploadError, IN_PROGRESS_TTL_NS, REGISTRATION_EXPIRATION_TTL_NS,
};
use certificate_orchestrator::registration::{EncryptedPair, State};

fn root() -> String {
    "root-principal".to_owned()
}

fn worker() -> String {
    "worker-principal".to_owned()
}

fn engine() -> Orchestrator {
    let mut o = Orchestrator::new(vec![root()], 7);
    o.add_allowed_principal(&root(), worker()).unwrap();
    o
}

#[test]
fn create_returns_64_char_id_and_queues_task() {
    let mut o = engine();
    let id = o
        .create_registration(&worker(), &"example.com".to_owned(), &"owner".to_owned(), 1000)
        .unwrap();
    assert_eq!(id.len(), 64);
    assert!(id.chars().all(|c| c.is_ascii_hexdigit() && !c.is_ascii_uppercase()));
    assert_eq!(o.peek_task(&worker(), 1000), Ok(id.clone()));
    let reg = o.get_registration(&worker(), &id).unwrap();
    assert_eq!(reg.name, "example.com");
    assert_eq!(reg.canister, "owner");
    assert_eq!(reg.state, State::PendingOrder);
    assert_eq!(reg.created_at, 1000);
}

#[test]
fn duplicate_create_returns_first_id() {
    let mut o = engine();
    let id1 = o
        .create_registration(&worker(), &"x.com".to_owned(), &"owner".to_owned(), 5)
        .unwrap();
    let second = o.create_registration(&worker(), &"x.com".to_owned(), &"other".to_owned(), 6);
    assert_eq!(second, Err(CreateError::Duplicate(id1)));
}

#[test]
fn renewal_after_available_gets_fresh_id() {
    let mut o = engine();
    let id1 = o
        .create_registration(&worker(), &"x.com".to_owned(), &"owner".to_owned(), 5)
        .unwrap();
    o.upload_certificate(&worker(), &id1, EncryptedPair(vec![1], vec![2])).unwrap();
    let id2 = o
        .create_registration(&worker(), &"x.com".to_owned(), &"owner".to_owned(), 9)
        .unwrap();
    assert_ne!(id1, id2);
}

#[test]
fn invalid_names_are_rejected() {
    let mut o = engine();
    let owner = "owner".to_owned();
    for bad in [
        "",
        "nodots",
        "-leading.com",
        "trailing-.com",
        "double..dot.com",
        ".leading.dot",
        "trailing.dot.",
        "under_score.com",
        "label-.x.com",
        "x.-label.com",
        "a-name-that-is-much-too-long-for-the-declared-limit-of-the-engine.com",
    ] {
        match o.create_registration(&worker(), &bad.to_owned(), &owner, 1) {
            Err(CreateError::NameError(_)) => {}
            other => panic!("expected NameError for {bad:?} but got {other:?}"),
        }
    }
    assert!(o.create_registration(&worker(), &"ok-name.example".to_owned(), &owner, 1).is_ok());
}

#[test]
fn longest_valid_name_is_accepted() {
    let mut o = engine();
    let label = "a".repeat(62);
    let name = format!("{label}.b");
    assert_eq!(name.len(), 64);
    assert!(o.create_registration(&worker(), &name, &"owner".to_owned(), 1).is_ok());
    let too_long = format!("{label}.bc");
    match o.create_registration(&worker(), &too_long, &"owner".to_owned(), 1) {
        Err(CreateError::NameError(_)) => {}
        other => panic!("expected NameError but got {other:?}"),
    }
}

#[test]
fn dispense_moves_task_into_lease() {
    let mut o = engine();
    let id = o
        .create_registration(&worker(), &"a.com".to_owned(), &"owner".to_owned(), 100)
        .unwrap();
    assert_eq!(o.dispense_task(&worker(), 100), Ok(id));
    assert_eq!(o.dispense_task(&worker(), 100), Err(DispenseTaskError::NoTasksAvailable));
}

#[test]
fn dispense_respects_due_times_and_key_order() {
    let mut o = engine();
    let id_b = o
        .create_registration(&worker(), &"b.com".to_owned(), &"owner".to_owned(), 50)
        .unwrap();
    let id_a = o
        .create_registration(&worker(), &"a.com".to_owned(), &"owner".to_owned(), 20)
        .unwrap();
    // Nothing is due before the earliest task.
    assert_eq!(o.peek_task(&worker(), 10), Err(DispenseTaskError::NoTasksAvailable));
    // The earlier due-time comes first whatever the key order.
    assert_eq!(o.dispense_task(&worker(), 60), Ok(id_a.clone()));
    assert_eq!(o.dispense_task(&worker(), 60), Ok(id_b.clone()));
    // Equal due-times break ties by key.
    let mut o2 = engine();
    let x = o2
        .create_registration(&worker(), &"x.com".to_owned(), &"owner".to_owned(), 33)
        .unwrap();
    let y = o2
        .create_registration(&worker(), &"y.com".to_owned(), &"owner".to_owned(), 33)
        .unwrap();
    let first = o2.dispense_task(&worker(), 33).unwrap();
    let second = o2.dispense_task(&worker(), 33).unwrap();
    assert_ne!(first, second);
    let mut expect = [x, y];
    expect.sort();
    assert_eq!(first, expect[0]);
    assert_eq!(second, expect[1]);
}

#[test]
fn lease_recovery_reinjects_task_after_ttl() {
    let mut o = engine();
    let id = o
        .create_registration(&worker(), &"a.com".to_owned(), &"owner".to_owned(), 0)
        .unwrap();
    assert_eq!(o.dispense_task(&worker(), 0), Ok(id.clone()));
    // The worker crashes before reporting; before the lease is due the
    // sweeper does nothing.
    o.retry(IN_PROGRESS_TTL_NS - 1);
    assert_eq!(o.peek_task(&worker(), IN_PROGRESS_TTL_NS - 1), Err(DispenseTaskError::NoTasksAvailable));
    // Once the lease expires the sweep re-injects the task.
    o.retry(IN_PROGRESS_TTL_NS);
    assert_eq!(o.dispense_task(&worker(), IN_PROGRESS_TTL_NS), Ok(id));
}

#[test]
fn expiration_removes_registration_everywhere() {
    let mut o = engine();
    let t0: u64 = 1_000;
    let id = o
        .create_registration(&worker(), &"a.com".to_owned(), &"owner".to_owned(), t0)
        .unwrap();
    // Before the TTL the reaper leaves it alone.
    o.expire(t0 + REGISTRATION_EXPIRATION_TTL_NS - 1);
    assert!(o.get_registration(&worker(), &id).is_ok());
    // At the TTL it is removed from the store, the index, and the queues.
    o.expire(t0 + REGISTRATION_EXPIRATION_TTL_NS + 1);
    assert_eq!(o.get_registration(&worker(), &id), Err(GetError::NotFound));
    assert_eq!(o.dispense_task(&worker(), t0 + REGISTRATION_EXPIRATION_TTL_NS + 1), Err(DispenseTaskError::NoTasksAvailable));
    assert_eq!(o.queue_task(&worker(), &id, 0), Err(QueueTaskError::NotFound));
    // The name can be enrolled again.
    assert!(o.create_registration(&worker(), &"a.com".to_owned(), &"owner".to_owned(), t0).is_ok());
}

#[test]
fn unauthorized_callers_are_refused_without_effect() {
    let mut o = engine();
    let id = o
        .create_registration(&worker(), &"a.com".to_owned(), &"owner".to_owned(), 10)
        .unwrap();
    let stranger = "stranger".to_owned();
    assert_eq!(o.queue_task(&stranger, &id, 0), Err(QueueTaskError::Unauthorized));
    assert_eq!(
        o.create_registration(&stranger, &"b.com".to_owned(), &"owner".to_owned(), 10),
        Err(CreateError::Unauthorized)
    );
    assert_eq!(o.get_registration(&stranger, &id), Err(GetError::Unauthorized));
    assert_eq!(o.dispense_task(&stranger, 10), Err(DispenseTaskError::Unauthorized));
    assert_eq!(
        o.upload_certificate(&stranger, &id, EncryptedPair(vec![], vec![])),
        Err(UploadError::Unauthorized)
    );
    assert_eq!(
        o.add_allowed_principal(&stranger, "other".to_owned()),
        Err(ModifyAllowedPrincipalError::Unauthorized)
    );
    // State is unchanged: the task is still there for the real worker.
    assert_eq!(o.peek_task(&worker(), 10), Ok(id));
}

#[test]
fn allowlist_is_root_managed() {
    let mut o = Orchestrator::new(vec![root()], 3);
    assert_eq!(o.list_allowed_principals(&worker()), Err(certificate_orchestrator::orchestrator::ListAllowedPrincipalsError::Unauthorized));
    o.add_allowed_principal(&root(), worker()).unwrap();
    assert_eq!(o.list_allowed_principals(&root()).unwrap(), vec![worker()]);
    o.rm_allowed_principal(&root(), &worker()).unwrap();
    assert_eq!(o.list_allowed_principals(&root()).unwrap(), Vec::<String>::new());
    assert_eq!(
        o.create_registration(&worker(), &"a.com".to_owned(), &"owner".to_owned(), 1),
        Err(CreateError::Unauthorized)
    );
}

#[test]
fn superseded_registrations_are_no_longer_current() {
    let mut o = engine();
    let id1 = o
        .create_registration(&worker(), &"x.com".to_owned(), &"owner".to_owned(), 5)
        .unwrap();
    o.upload_certificate(&worker(), &id1, EncryptedPair(vec![1], vec![2])).unwrap();
    let id2 = o
        .create_registration(&worker(), &"x.com".to_owned(), &"owner".to_owned(), 9)
        .unwrap();
    // The renewal holds the name now; an update against the superseded
    // registration is refused so the name index stays consistent.
    assert_eq!(
        o.update_registration(&worker(), &id1, State::PendingOrder, 10),
        Err(certificate_orchestrator::orchestrator::UpdateError::NotFound)
    );
    assert!(o.update_registration(&worker(), &id2, State::PendingChallengeResponse, 10).is_ok());
}

#[test]
fn every_operation_authorizes_first() {
    let mut o = engine();
    let id = o
        .create_registration(&worker(), &"a.com".to_owned(), &"owner".to_owned(), 10)
        .unwrap();
    let stranger = "stranger".to_owned();
    assert_eq!(
        o.update_registration(&stranger, &id, State::PendingOrder, 10),
        Err(certificate_orchestrator::orchestrator::UpdateError::Unauthorized)
    );
    assert_eq!(
        o.export_certificates(&stranger),
        Err(certificate_orchestrator::orchestrator::ExportError::Unauthorized)
    );
    assert_eq!(o.peek_task(&stranger, 10), Err(DispenseTaskError::Unauthorized));
    assert_eq!(
        o.rm_allowed_principal(&stranger, &worker()),
        Err(ModifyAllowedPrincipalError::Unauthorized)
    );
}

#[test]
fn queue_task_refuses_available_registrations() {
    let mut o = engine();
    let id = o
        .create_registration(&worker(), &"a.com".to_owned(), &"owner".to_owned(), 1)
        .unwrap();
    o.upload_certificate(&worker(), &id, EncryptedPair(vec![9], vec![8])).unwrap();
    assert_eq!(o.queue_task(&worker(), &id, 2), Err(QueueTaskError::NotFound));
    assert_eq!(o.queue_task(&worker(), &"absent".to_owned(), 2), Err(QueueTaskError::NotFound));
}

#[test]
fn update_reschedules_by_state() {
    let mut o = engine();
    let id = o
        .create_registration(&worker(), &"a.com".to_owned(), &"owner".to_owned(), 0)
        .unwrap();
    assert_eq!(o.dispense_task(&worker(), 0), Ok(id.clone()));
    // A failure parks the registration in the retry queue for one back-off.
    o.update_registration(&worker(), &id, State::Failed("boom".to_owned()), 100).unwrap();
    let reg = o.get_registration(&worker(), &id).unwrap();
    assert_eq!(reg.state, State::Failed("boom".to_owned()));
    o.retry(100 + certificate_orchestrator::orchestrator::RETRY_DELAY_NS);
    assert_eq!(
        o.dispense_task(&worker(), 100 + certificate_orchestrator::orchestrator::RETRY_DELAY_NS),
        Ok(id.clone())
    );
    // An advance keeps the lease; an explicit queue re-arms immediately.
    o.update_registration(&worker(), &id, State::PendingChallengeResponse, 200).unwrap();
    assert_eq!(o.peek_task(&worker(), 200), Err(DispenseTaskError::NoTasksAvailable));
    o.queue_task(&worker(), &id, 200).unwrap();
    assert_eq!(o.peek_task(&worker(), 200), Ok(id.clone()));
    // Updating an unknown id is refused.
    assert_eq!(
        o.update_registration(&worker(), &"missing".to_owned(), State::PendingOrder, 1),
        Err(certificate_orchestrator::orchestrator::UpdateError::NotFound)
    );
}

#[test]
fn upload_stores_pair_and_export_returns_it() {
    let mut o = engine();
    let id = o
        .create_registration(&worker(), &"example.com".to_owned(), &"owner".to_owned(), 1)
        .unwrap();
    assert_eq!(
        o.upload_certificate(&worker(), &"missing".to_owned(), EncryptedPair(vec![], vec![])),
        Err(UploadError::NotFound)
    );
    o.upload_certificate(&worker(), &id, EncryptedPair(b"key".to_vec(), b"cert".to_vec()))
        .unwrap();
    let reg = o.get_registration(&worker(), &id).unwrap();
    assert_eq!(reg.state, State::Available);
    let pkgs = o.export_certificates(&worker()).unwrap();
    assert_eq!(pkgs.len(), 1);
    assert_eq!(pkgs[0].name, "example.com");
    assert_eq!(pkgs[0].id, id);
    assert_eq!(pkgs[0].pair, EncryptedPair(b"key".to_vec(), b"cert".to_vec()));
}

#[test]
fn export_skips_unfinished_registrations() {
    let mut o = engine();
    let _pending = o
        .create_registration(&worker(), &"pending.com".to_owned(), &"owner".to_owned(), 1)
        .unwrap();
    let done = o
        .create_registration(&worker(), &"done.com".to_owned(), &"owner".to_owned(), 1)
        .unwrap();
    o.upload_certificate(&worker(), &done, EncryptedPair(vec![1], vec![2])).unwrap();
    let pkgs = o.export_certificates(&worker()).unwrap();
    assert_eq!(pkgs.len(), 1);
    assert_eq!(pkgs[0].id, done);
}
