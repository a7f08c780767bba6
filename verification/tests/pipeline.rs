//! The happy path end to end: enrolment, three worker phases, export.

use certificate_orchestrator::orchestrator::Orchestrator;
use certificate_orchestrator::registration::{EncryptedPair, State};
use certificate_orchestrator::work::{
    registration_task, Action, ProcessCommand, ProcessError, ProcessOutcome, Processor,
};

fn root() -> String {
    "root-principal".to_owned()
}

fn worker() -> String {
    "worker-principal".to_owned()
}

#[test]
fn happy_path_issues_and_exports_a_certificate() {
    let mut o = Orchestrator::new(vec![root()], 99);
    o.add_allowed_principal(&root(), worker()).unwrap();
    let processor = Processor::new("delegation".to_owned());
    let mut now: u64 = 1_000;

    let id = o
        .create_registration(&worker(), &"example.com".to_owned(), &"owner".to_owned(), now)
        .unwrap();

    // Order phase: the worker places the order and publishes the challenge.
    assert_eq!(o.dispense_task(&worker(), now), Ok(id.clone()));
    let reg = o.get_registration(&worker(), &id).unwrap();
    let task = registration_task(&reg);
    assert_eq!(task.action, Action::Order);
    let cmd = processor.process_start(&task);
    let cmd = processor.process_step(&id, &task, &cmd, ProcessOutcome::SucceededKey("tok".into()));
    let cmd = processor.process_step(&id, &task, &cmd, ProcessOutcome::Succeeded);
    match cmd {
        ProcessCommand::Finish { result: Err(ProcessError::AwaitingDnsPropogation) } => {}
        other => panic!("expected AwaitingDnsPropogation but got {:?}", other),
    }
    o.update_registration(&worker(), &id, State::PendingChallengeResponse, now).unwrap();
    now += 60_000_000_000;
    o.queue_task(&worker(), &id, now).unwrap();

    // Ready phase: the record has propagated, the order is marked ready.
    assert_eq!(o.dispense_task(&worker(), now), Ok(id.clone()));
    let reg = o.get_registration(&worker(), &id).unwrap();
    let task = registration_task(&reg);
    assert_eq!(task.action, Action::Ready);
    let cmd = processor.process_start(&task);
    let cmd = processor.process_step(&id, &task, &cmd, ProcessOutcome::Succeeded);
    let cmd = processor.process_step(&id, &task, &cmd, ProcessOutcome::Succeeded);
    match cmd {
        ProcessCommand::Finish { result: Err(ProcessError::AwaitingAcmeOrderReady) } => {}
        other => panic!("expected AwaitingAcmeOrderReady but got {:?}", other),
    }
    o.update_registration(&worker(), &id, State::PendingAcmeApproval, now).unwrap();
    now += 60_000_000_000;
    o.queue_task(&worker(), &id, now).unwrap();

    // Certificate phase: finalize, clean up the record, upload the pair.
    assert_eq!(o.dispense_task(&worker(), now), Ok(id.clone()));
    let reg = o.get_registration(&worker(), &id).unwrap();
    let task = registration_task(&reg);
    assert_eq!(task.action, Action::Certificate);
    let cmd = processor.process_start(&task);
    let cmd = processor.process_step(
        &id,
        &task,
        &cmd,
        ProcessOutcome::SucceededPair("cert".into(), "key".into()),
    );
    let cmd = processor.process_step(&id, &task, &cmd, ProcessOutcome::Succeeded);
    let (up_id, pair) = match cmd {
        ProcessCommand::CallUpload { id: up_id, pair } => (up_id, pair),
        other => panic!("expected an upload command but got {:?}", other),
    };
    assert_eq!(up_id, id);
    assert_eq!(o.upload_certificate(&worker(), &up_id, pair), Ok(()));

    let pkgs = o.export_certificates(&worker()).unwrap();
    assert_eq!(pkgs.len(), 1);
    assert_eq!(pkgs[0].name, "example.com");
    assert_eq!(pkgs[0].id, id);
    assert_eq!(pkgs[0].pair, EncryptedPair(b"key".to_vec(), b"cert".to_vec()));
}
