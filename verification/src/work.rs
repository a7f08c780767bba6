//! The worker side of the pipeline.
//!
//! A worker polls the orchestrator for tasks and drives each registration
//! through the ACME handshake.  Everything here is decision logic: which
//! call a task demands next, what each call's result means, and how the
//! orchestrator's answers translate into the worker's own errors.  The
//! calls themselves (RPC transport, ACME, DNS, the resolver) are outside
//! work that the surrounding process performs, handing the plain outcome
//! back to [`Processor::process_step`].

use vstd::prelude::*;
use vstd::string::{StrSliceExecFns, StringExecFns};
use vstd::utf8::encode_utf8;

use crate::orchestrator::{DispenseTaskError, GetError, QueueTaskError};
use crate::registration::{EncryptedPair, Registration, State};

verus! {

/// The ACME phase a task asks the worker to run.
#[derive(Debug, Clone, PartialEq, Eq)]
pub enum Action {
    Order,
    Ready,
    Certificate,
}

/// The phase a registration's state calls for: a fresh or failed (or
/// renewing) registration orders, one awaiting its challenge response
/// readies, one awaiting approval finalizes.
pub open spec fn action_of(s: State) -> Action {
    match s {
        State::Failed(_) => Action::Order,
        State::PendingOrder => Action::Order,
        State::PendingChallengeResponse => Action::Ready,
        State::PendingAcmeApproval => Action::Certificate,
        State::Available => Action::Order,
    }
}

impl From<State> for Action {
    fn from(s: State) -> (r: Action) {
        match s {
            State::Failed(_) => Action::Order,
            State::PendingOrder => Action::Order,
            State::PendingChallengeResponse => Action::Ready,
            State::PendingAcmeApproval => Action::Certificate,
            State::Available => Action::Order,
        }
    }
}

impl vstd::std_specs::convert::FromSpecImpl<State> for Action {
    open spec fn obeys_from_spec() -> bool {
        true
    }

    open spec fn from_spec(s: State) -> Action {
        action_of(s)
    }
}

/// The JSON rendering of an action.
pub open spec fn action_json(a: Action) -> Seq<char> {
    match a {
        Action::Order => "\"Order\""@,
        Action::Ready => "\"Ready\""@,
        Action::Certificate => "\"Certificate\""@,
    }
}

impl Action {
    /// The action as a JSON string.
    pub fn to_string(&self) -> (r: String)
        ensures
            r@ == action_json(*self),
    {
        match self {
            Action::Order => String::from_str("\"Order\""),
            Action::Ready => String::from_str("\"Ready\""),
            Action::Certificate => String::from_str("\"Certificate\""),
        }
    }
}

/// A unit of work: the registration's name and the phase to run.
#[derive(Debug, Clone, PartialEq, Eq)]
pub struct Task {
    pub name: String,
    pub action: Action,
}

/// Why queueing a task at the orchestrator failed, seen from the worker.
#[derive(Debug, PartialEq, Eq)]
pub enum QueueError {
    NotFound,
    UnexpectedError(String),
}

/// Why dispensing a task failed, seen from the worker.
#[derive(Debug, PartialEq, Eq)]
pub enum DispenseError {
    NoTasksAvailable,
    UnexpectedError(String),
}

/// How a processed phase ended.  The two awaiting kinds are
/// expected-transient: the worker leaves the task leased and lets the
/// retry sweeper re-arm it.
#[derive(Debug, PartialEq, Eq)]
pub enum ProcessError {
    AwaitingDnsPropogation,
    AwaitingAcmeOrderReady,
    UnexpectedError(String),
}

impl ProcessError {
    /// How long to wait before re-checking, in seconds.
    pub fn retry_delay_secs(&self) -> (r: u64)
        ensures
            r == 60,
    {
        60
    }
}

/// Translates the orchestrator's answer to `queueTask` into the worker's
/// error: an unauthorized refusal is unexpected for a configured worker.
pub fn queue_response(resp: Result<(), QueueTaskError>) -> (r: Result<(), QueueError>)
    ensures
        resp is Ok ==> r == Result::<(), QueueError>::Ok(()),
        resp == Result::<(), QueueTaskError>::Err(QueueTaskError::NotFound) ==> r == Result::<
            (),
            QueueError,
        >::Err(QueueError::NotFound),
        resp == Result::<(), QueueTaskError>::Err(QueueTaskError::Unauthorized) ==> (r matches Err(
            QueueError::UnexpectedError(m),
        ) && m@ == "unauthorized"@),
        forall|m: String|
            resp == Result::<(), QueueTaskError>::Err(QueueTaskError::UnexpectedError(m)) ==> r
                == Result::<(), QueueError>::Err(QueueError::UnexpectedError(m)),
{
    match resp {
        Ok(()) => Ok(()),
        Err(QueueTaskError::NotFound) => Err(QueueError::NotFound),
        Err(QueueTaskError::Unauthorized) => Err(
            QueueError::UnexpectedError(String::from_str("unauthorized")),
        ),
        Err(QueueTaskError::UnexpectedError(m)) => Err(QueueError::UnexpectedError(m)),
    }
}

/// Translates the orchestrator's answer to `dispenseTask` or `peekTask`
/// into the worker's error.
pub fn dispense_response(resp: Result<String, DispenseTaskError>) -> (r: Result<
    String,
    DispenseError,
>)
    ensures
        forall|id: String|
            resp == Result::<String, DispenseTaskError>::Ok(id) ==> r == Result::<
                String,
                DispenseError,
            >::Ok(id),
        resp == Result::<String, DispenseTaskError>::Err(DispenseTaskError::NoTasksAvailable) ==> r
            == Result::<String, DispenseError>::Err(DispenseError::NoTasksAvailable),
        resp == Result::<String, DispenseTaskError>::Err(DispenseTaskError::Unauthorized) ==> (
        r matches Err(DispenseError::UnexpectedError(m)) && m@ == "unauthorized"@),
        forall|m: String|
            resp == Result::<String, DispenseTaskError>::Err(
                DispenseTaskError::UnexpectedError(m),
            ) ==> r == Result::<String, DispenseError>::Err(DispenseError::UnexpectedError(m)),
{
    match resp {
        Ok(id) => Ok(id),
        Err(DispenseTaskError::NoTasksAvailable) => Err(DispenseError::NoTasksAvailable),
        Err(DispenseTaskError::Unauthorized) => Err(
            DispenseError::UnexpectedError(String::from_str("unauthorized")),
        ),
        Err(DispenseTaskError::UnexpectedError(m)) => Err(DispenseError::UnexpectedError(m)),
    }
}

/// Translates the orchestrator's answer to `getRegistration` into the
/// worker's error: after a successful dispense the registration must
/// exist, so any failure is unexpected.
pub fn registration_response(resp: Result<Registration, GetError>) -> (r: Result<
    Registration,
    DispenseError,
>)
    ensures
        forall|reg: Registration|
            resp == Result::<Registration, GetError>::Ok(reg) ==> r == Result::<
                Registration,
                DispenseError,
            >::Ok(reg),
        resp == Result::<Registration, GetError>::Err(GetError::NotFound) ==> (r matches Err(
            DispenseError::UnexpectedError(m),
        ) && m@ == "not found"@),
        resp == Result::<Registration, GetError>::Err(GetError::Unauthorized) ==> (r matches Err(
            DispenseError::UnexpectedError(m),
        ) && m@ == "unauthorized"@),
        forall|m: String|
            resp == Result::<Registration, GetError>::Err(GetError::UnexpectedError(m)) ==> r
                == Result::<Registration, DispenseError>::Err(DispenseError::UnexpectedError(m)),
{
    match resp {
        Ok(reg) => Ok(reg),
        Err(GetError::NotFound) => Err(
            DispenseError::UnexpectedError(String::from_str("not found")),
        ),
        Err(GetError::Unauthorized) => Err(
            DispenseError::UnexpectedError(String::from_str("unauthorized")),
        ),
        Err(GetError::UnexpectedError(m)) => Err(DispenseError::UnexpectedError(m)),
    }
}

/// The task a dispensed registration calls for.
pub fn registration_task(reg: &Registration) -> (t: Task)
    ensures
        t.name@ == reg.name@,
        t.action == action_of(reg.state),
{
    Task { name: reg.name.clone(), action: Action::from(reg.state.duplicate()) }
}

/// The DNS record name carrying a name's ACME challenge.
pub open spec fn challenge_record(name: Seq<char>) -> Seq<char> {
    "_acme-challenge."@ + name
}

/// Where the worker checks for the propagated challenge: the record under
/// the delegation domain that the customer's zone delegates to.
pub open spec fn challenge_lookup(name: Seq<char>, domain: Seq<char>) -> Seq<char> {
    "_acme-challenge."@ + name + "."@ + domain
}

/// The outside call a processing step asks for, or the phase's final
/// report.
#[derive(Debug, PartialEq, Eq)]
pub enum ProcessCommand {
    /// Place the ACME order for this name.
    CallOrder { name: String },
    /// Publish the challenge TXT record in the delegation zone.
    CallDnsCreate { zone: String, record: String, txt: String },
    /// Resolve the TXT record to confirm propagation.
    CallResolve { record: String },
    /// Tell the certificate authority the order is ready.
    CallReady { name: String },
    /// Finalize the order and fetch the certificate chain and key.
    CallFinalize { name: String },
    /// Remove the challenge record; the issued material rides along.
    CallDnsDelete { zone: String, record: String, key_pem: String, cert_pem: String },
    /// Upload the encrypted pair to the orchestrator.
    CallUpload { id: String, pair: EncryptedPair },
    /// The phase is over.
    Finish { result: Result<(), ProcessError> },
}

/// What came back from the outside call the last command asked for.
#[derive(Debug, PartialEq, Eq)]
pub enum ProcessOutcome {
    /// The call succeeded and returned nothing of interest.
    Succeeded,
    /// The ACME order was placed and returned this challenge key.
    SucceededKey(String),
    /// The order was finalized: certificate chain PEM, then key PEM.
    SucceededPair(String, String),
    /// The resolver found no records (propagation still pending).
    NoRecordsFound,
    /// The call failed with this message.
    Errored(String),
}

/// The worker's processing state machine.  It holds only the delegation
/// domain; each task is driven by [`Processor::process_start`] and
/// [`Processor::process_step`], with the surrounding process performing
/// the commanded calls.
pub struct Processor {
    delegation_domain: String,
}

/// An unexpected end of a phase.
pub open spec fn finish_unexpected(c: ProcessCommand) -> bool {
    c matches ProcessCommand::Finish { result } && result matches Err(
        ProcessError::UnexpectedError(_),
    )
}

impl Processor {
    /// The delegation zone challenge records are published in.
    pub closed spec fn domain(&self) -> Seq<char> {
        self.delegation_domain@
    }

    pub fn new(delegation_domain: String) -> (p: Processor)
        ensures
            p.domain() == delegation_domain@,
    {
        Processor { delegation_domain }
    }

    /// The first call a task demands: order for the order phase, resolve
    /// for the ready phase, finalize for the certificate phase.
    pub fn process_start(&self, task: &Task) -> (c: ProcessCommand)
        ensures
            task.action is Order ==> (c matches ProcessCommand::CallOrder { name } && name@
                == task.name@),
            task.action is Ready ==> (c matches ProcessCommand::CallResolve { record } && record@
                == challenge_lookup(task.name@, self.domain())),
            task.action is Certificate ==> (c matches ProcessCommand::CallFinalize { name }
                && name@ == task.name@),
    {
        match task.action {
            Action::Order => ProcessCommand::CallOrder { name: task.name.clone() },
            Action::Ready => ProcessCommand::CallResolve {
                record: String::from_str("_acme-challenge.").concat(task.name.as_str()).concat(
                    ".",
                ).concat(self.delegation_domain.as_str()),
            },
            Action::Certificate => ProcessCommand::CallFinalize { name: task.name.clone() },
        }
    }

    /// One decision step: given the command just performed and its
    /// outcome, the next command.  Transient conditions finish the phase
    /// with an awaiting report; any unexpected answer finishes it with an
    /// error the orchestrator will turn into a `Failed` state.
    pub fn process_step(
        &self,
        id: &String,
        task: &Task,
        cmd: &ProcessCommand,
        outcome: ProcessOutcome,
    ) -> (c: ProcessCommand)
        ensures
            ({
                match *cmd {
                    ProcessCommand::CallOrder { .. } => match outcome {
                        ProcessOutcome::SucceededKey(k) => c matches ProcessCommand::CallDnsCreate {
                            zone,
                            record,
                            txt,
                        } && zone@ == self.domain() && record@ == challenge_record(task.name@)
                            && txt@ == k@,
                        _ => finish_unexpected(c),
                    },
                    ProcessCommand::CallDnsCreate { .. } => match outcome {
                        ProcessOutcome::Succeeded => c == (ProcessCommand::Finish {
                            result: Err(ProcessError::AwaitingDnsPropogation),
                        }),
                        _ => finish_unexpected(c),
                    },
                    ProcessCommand::CallResolve { .. } => match outcome {
                        ProcessOutcome::Succeeded => c matches ProcessCommand::CallReady { name }
                            && name@ == task.name@,
                        ProcessOutcome::NoRecordsFound => c == (ProcessCommand::Finish {
                            result: Err(ProcessError::AwaitingDnsPropogation),
                        }),
                        _ => finish_unexpected(c),
                    },
                    ProcessCommand::CallReady { .. } => match outcome {
                        ProcessOutcome::Succeeded => c == (ProcessCommand::Finish {
                            result: Err(ProcessError::AwaitingAcmeOrderReady),
                        }),
                        _ => finish_unexpected(c),
                    },
                    ProcessCommand::CallFinalize { .. } => match outcome {
                        ProcessOutcome::SucceededPair(cert, key) => c
                            matches ProcessCommand::CallDnsDelete { zone, record, key_pem, cert_pem }
                            && zone@ == self.domain() && record@ == challenge_record(task.name@)
                            && key_pem@ == key@ && cert_pem@ == cert@,
                        _ => finish_unexpected(c),
                    },
                    ProcessCommand::CallDnsDelete { .. } => match outcome {
                        ProcessOutcome::Succeeded => (c matches ProcessCommand::CallUpload {
                            id: up_id,
                            pair,
                        } && up_id@ == id@ && ({
                            &&& cmd matches ProcessCommand::CallDnsDelete { key_pem, cert_pem, .. }
                            &&& pair.0@ == encode_utf8(key_pem@)
                            &&& pair.1@ == encode_utf8(cert_pem@)
                        })),
                        _ => finish_unexpected(c),
                    },
                    ProcessCommand::CallUpload { .. } => match outcome {
                        ProcessOutcome::Succeeded => c == (ProcessCommand::Finish {
                            result: Ok(()),
                        }),
                        _ => finish_unexpected(c),
                    },
                    ProcessCommand::Finish { .. } => finish_unexpected(c),
                }
            }),
    {
        match cmd {
            ProcessCommand::CallOrder { .. } => match outcome {
                ProcessOutcome::SucceededKey(k) => ProcessCommand::CallDnsCreate {
                    zone: self.delegation_domain.clone(),
                    record: String::from_str("_acme-challenge.").concat(task.name.as_str()),
                    txt: k,
                },
                ProcessOutcome::Errored(m) => Self::fail("failed to create acme order: ", m.as_str()),
                _ => Self::fail("unexpected answer to acme order", ""),
            },
            ProcessCommand::CallDnsCreate { .. } => match outcome {
                ProcessOutcome::Succeeded => ProcessCommand::Finish {
                    result: Err(ProcessError::AwaitingDnsPropogation),
                },
                ProcessOutcome::Errored(m) => Self::fail("failed to create dns record: ", m.as_str()),
                _ => Self::fail("unexpected answer to dns create", ""),
            },
            ProcessCommand::CallResolve { .. } => match outcome {
                ProcessOutcome::Succeeded => ProcessCommand::CallReady { name: task.name.clone() },
                ProcessOutcome::NoRecordsFound => ProcessCommand::Finish {
                    result: Err(ProcessError::AwaitingDnsPropogation),
                },
                ProcessOutcome::Errored(m) => Self::fail(
                    "failed to resolve TXT record: ",
                    m.as_str(),
                ),
                _ => Self::fail("unexpected answer to resolve", ""),
            },
            ProcessCommand::CallReady { .. } => match outcome {
                ProcessOutcome::Succeeded => ProcessCommand::Finish {
                    result: Err(ProcessError::AwaitingAcmeOrderReady),
                },
                ProcessOutcome::Errored(m) => Self::fail(
                    "failed to mark acme order as ready: ",
                    m.as_str(),
                ),
                _ => Self::fail("unexpected answer to acme ready", ""),
            },
            ProcessCommand::CallFinalize { .. } => match outcome {
                ProcessOutcome::SucceededPair(cert, key) => ProcessCommand::CallDnsDelete {
                    zone: self.delegation_domain.clone(),
                    record: String::from_str("_acme-challenge.").concat(task.name.as_str()),
                    key_pem: key,
                    cert_pem: cert,
                },
                ProcessOutcome::Errored(m) => Self::fail(
                    "failed to finalize acme order: ",
                    m.as_str(),
                ),
                _ => Self::fail("unexpected answer to finalize", ""),
            },
            ProcessCommand::CallDnsDelete { key_pem, cert_pem, .. } => match outcome {
                ProcessOutcome::Succeeded => ProcessCommand::CallUpload {
                    id: id.clone(),
                    pair: EncryptedPair(key_pem.as_str().as_bytes_vec(), cert_pem.as_str().as_bytes_vec()),
                },
                ProcessOutcome::Errored(m) => Self::fail("failed to delete dns record: ", m.as_str()),
                _ => Self::fail("unexpected answer to dns delete", ""),
            },
            ProcessCommand::CallUpload { .. } => match outcome {
                ProcessOutcome::Succeeded => ProcessCommand::Finish { result: Ok(()) },
                ProcessOutcome::Errored(m) => Self::fail(
                    "failed to upload certificates: ",
                    m.as_str(),
                ),
                _ => Self::fail("unexpected answer to upload", ""),
            },
            ProcessCommand::Finish { .. } => Self::fail("no call outstanding", ""),
        }
    }

    /// A phase failure with its reason.
    fn fail(context: &str, detail: &str) -> (c: ProcessCommand)
        ensures
            finish_unexpected(c),
    {
        ProcessCommand::Finish {
            result: Err(
                ProcessError::UnexpectedError(String::from_str(context).concat(detail)),
            ),
        }
    }
}

} // verus!
