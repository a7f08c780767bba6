//! The worker pipeline's decision logic, driven call by call.

use certificate_orchestrator::orchestrator::{DispenseTaskError, GetError, QueueTaskError};
use certificate_orchestrator::registration::{Registration, State};
use certificate_orchestrator::work::{
    dispense_response, queue_response, registration_response, registration_task, Action,
    DispenseError, ProcessCommand, ProcessError, ProcessOutcome, Processor, QueueError, Task,
};

#[test]
fn action_mapping_follows_state() {
    assert_eq!(Action::from(State::Failed("x".to_owned())), Action::Order);
    assert_eq!(Action::from(State::PendingOrder), Action::Order);
    assert_eq!(Action::from(State::PendingChallengeResponse), Action::Ready);
    assert_eq!(Action::from(State::PendingAcmeApproval), Action::Certificate);
    assert_eq!(Action::from(State::Available), Action::Order);
}

#[test]
fn action_renders_as_json() {
    assert_eq!(Action::Order.to_string(), "\"Order\"");
    assert_eq!(Action::Ready.to_string(), "\"Ready\"");
    assert_eq!(Action::Certificate.to_string(), "\"Certificate\"");
}

#[test]
fn transient_outcomes_retry_after_a_minute() {
    assert_eq!(ProcessError::AwaitingDnsPropogation.retry_delay_secs(), 60);
    assert_eq!(ProcessError::AwaitingAcmeOrderReady.retry_delay_secs(), 60);
}

#[test]
fn task_derives_from_registration() {
    let reg = Registration {
        name: "site.com".to_owned(),
        canister: "owner".to_owned(),
        state: State::PendingChallengeResponse,
        created_at: 4,
    };
    let task = registration_task(&reg);
    assert_eq!(task, Task { name: "site.com".to_owned(), action: Action::Ready });
}

#[test]
fn orchestrator_answers_translate_to_worker_errors() {
    assert_eq!(queue_response(Ok(())), Ok(()));
    assert_eq!(queue_response(Err(QueueTaskError::NotFound)), Err(QueueError::NotFound));
    assert_eq!(
        queue_response(Err(QueueTaskError::Unauthorized)),
        Err(QueueError::UnexpectedError("unauthorized".to_owned()))
    );
    assert_eq!(
        queue_response(Err(QueueTaskError::UnexpectedError("boom".to_owned()))),
        Err(QueueError::UnexpectedError("boom".to_owned()))
    );
    assert_eq!(dispense_response(Ok("id".to_owned())), Ok("id".to_owned()));
    assert_eq!(
        dispense_response(Err(DispenseTaskError::NoTasksAvailable)),
        Err(DispenseError::NoTasksAvailable)
    );
    assert_eq!(
        dispense_response(Err(DispenseTaskError::Unauthorized)),
        Err(DispenseError::UnexpectedError("unauthorized".to_owned()))
    );
    let reg = Registration {
        name: "n.com".to_owned(),
        canister: "c".to_owned(),
        state: State::PendingOrder,
        created_at: 0,
    };
    assert_eq!(registration_response(Ok(reg.clone())), Ok(reg));
    assert_eq!(
        registration_response(Err(GetError::NotFound)),
        Err(DispenseError::UnexpectedError("not found".to_owned()))
    );
}

#[test]
fn test_process_order() {
    let id: String = "id".into();
    let task = Task { name: "name".into(), action: Action::Order };
    let processor = Processor::new("delegation".into());

    let first = processor.process_start(&task);
    assert_eq!(first, ProcessCommand::CallOrder { name: "name".into() });

    let second = processor.process_step(&id, &task, &first, ProcessOutcome::SucceededKey("token".into()));
    assert_eq!(
        second,
        ProcessCommand::CallDnsCreate {
            zone: "delegation".into(),
            record: "_acme-challenge.name".into(),
            txt: "token".into(),
        }
    );

    let done = processor.process_step(&id, &task, &second, ProcessOutcome::Succeeded);
    match done {
        ProcessCommand::Finish { result: Err(ProcessError::AwaitingDnsPropogation) } => {}
        other => panic!("expected AwaitingDnsPropogation but got {:?}", other),
    }
}

#[test]
fn test_process_ready() {
    let id: String = "id".into();
    let task = Task { name: "name".into(), action: Action::Ready };
    let processor = Processor::new("delegation".into());

    let first = processor.process_start(&task);
    assert_eq!(
        first,
        ProcessCommand::CallResolve { record: "_acme-challenge.name.delegation".into() }
    );

    let second = processor.process_step(&id, &task, &first, ProcessOutcome::Succeeded);
    assert_eq!(second, ProcessCommand::CallReady { name: "name".into() });

    let done = processor.process_step(&id, &task, &second, ProcessOutcome::Succeeded);
    match done {
        ProcessCommand::Finish { result: Err(ProcessError::AwaitingAcmeOrderReady) } => {}
        other => panic!("expected AwaitingAcmeOrderReady but got {:?}", other),
    }
}

#[test]
fn test_process_certificate() {
    let id: String = "id".into();
    let task = Task { name: "name".into(), action: Action::Certificate };
    let processor = Processor::new("delegation".into());

    let first = processor.process_start(&task);
    assert_eq!(first, ProcessCommand::CallFinalize { name: "name".into() });

    let second = processor.process_step(
        &id,
        &task,
        &first,
        ProcessOutcome::SucceededPair("cert".into(), "key".into()),
    );
    assert_eq!(
        second,
        ProcessCommand::CallDnsDelete {
            zone: "delegation".into(),
            record: "_acme-challenge.name".into(),
            key_pem: "key".into(),
            cert_pem: "cert".into(),
        }
    );

    let third = processor.process_step(&id, &task, &second, ProcessOutcome::Succeeded);
    match &third {
        ProcessCommand::CallUpload { id: up_id, pair } => {
            assert_eq!(up_id, "id");
            assert_eq!(pair.0, b"key".to_vec());
            assert_eq!(pair.1, b"cert".to_vec());
        }
        other => panic!("expected Ok(()) but got {:?}", other),
    }

    let done = processor.process_step(&id, &task, &third, ProcessOutcome::Succeeded);
    match done {
        ProcessCommand::Finish { result: Ok(()) } => {}
        other => panic!("expected Ok(()) but got {:?}", other),
    }
}

#[test]
fn resolver_without_records_reports_propagation_pending() {
    let id: String = "id".into();
    let task = Task { name: "name".into(), action: Action::Ready };
    let processor = Processor::new("delegation".into());
    let first = processor.process_start(&task);
    let done = processor.process_step(&id, &task, &first, ProcessOutcome::NoRecordsFound);
    match done {
        ProcessCommand::Finish { result: Err(ProcessError::AwaitingDnsPropogation) } => {}
        other => panic!("expected AwaitingDnsPropogation but got {:?}", other),
    }
}

#[test]
fn errored_calls_finish_the_phase_unexpectedly() {
    let id: String = "id".into();
    let task = Task { name: "name".into(), action: Action::Order };
    let processor = Processor::new("delegation".into());
    let first = processor.process_start(&task);
    let done = processor.process_step(&id, &task, &first, ProcessOutcome::Errored("down".into()));
    match done {
        ProcessCommand::Finish { result: Err(ProcessError::UnexpectedError(m)) } => {
            assert_eq!(m, "failed to create acme order: down");
        }
        other => panic!("expected UnexpectedError but got {:?}", other),
    }
}
