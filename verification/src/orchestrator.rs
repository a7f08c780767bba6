//! The certificate orchestration engine.
//!
//! One [`Orchestrator`] value owns every durable structure: the two
//! principal sets, the identifier generator's seed and counter, the
//! registration store, the name index, the certificate store, and the three
//! time queues (ready tasks, parked retries, expirations).  Every public
//! operation authorizes its caller first, runs to completion atomically,
//! and preserves the engine's invariant [`Orchestrator::wf`]:
//!
//! * the name index maps each name to a stored registration carrying that
//!   name, and every registration that is not `Available` is the current
//!   holder of its name's index entry;
//! * a registration that is not `Available` sits in exactly one of the
//!   task and retry queues and in the expiration queue, while an
//!   `Available` one sits in none;
//! * every queue entry points at a stored registration;
//! * every stored identifier came from the generator, so a fresh
//!   identifier collides with none of them.

use vstd::prelude::*;

use crate::acl::{authorize, PrincipalSet};
use crate::codec::{decode_queue, enc_queue, encode_queue, snapshot_fits, snapshot_of};
use crate::id::{generate_id, id_chars, lemma_id_collision_free};
use crate::queue::{q_has, q_sorted, q_time_of, q_unique, TimeQueue};
use crate::registration::{check_name, valid_name, EncryptedPair, Registration, State};
use crate::store::{m_get, m_has, AssocMap};

verus! {

/// A registration identifier: 64 lowercase hexadecimal characters.
pub type Id = String;

/// How long a registration may sit in the pipeline before the reaper
/// evicts it: six hours, in nanoseconds.
pub const REGISTRATION_EXPIRATION_TTL_NS: u64 = 21_600_000_000_000;

/// How long a dispensed task is leased to a worker before the sweeper
/// re-arms it: ten minutes, in nanoseconds.
pub const IN_PROGRESS_TTL_NS: u64 = 600_000_000_000;

/// Back-off before a failed registration is retried: sixty seconds, in
/// nanoseconds.
pub const RETRY_DELAY_NS: u64 = 60_000_000_000;

/// Largest timestamp the engine accepts, leaving room to add the longest
/// of the delays above without wrapping.
pub const MAX_TIMESTAMP_NS: u64 = u64::MAX - REGISTRATION_EXPIRATION_TTL_NS;

#[derive(Debug, PartialEq, Eq)]
pub enum CreateError {
    Duplicate(Id),
    NameError(String),
    Unauthorized,
    UnexpectedError(String),
}

#[derive(Debug, PartialEq, Eq)]
pub enum GetError {
    NotFound,
    Unauthorized,
    UnexpectedError(String),
}

#[derive(Debug, PartialEq, Eq)]
pub enum UpdateError {
    NotFound,
    Unauthorized,
    UnexpectedError(String),
}

#[derive(Debug, PartialEq, Eq)]
pub enum UploadError {
    NotFound,
    Unauthorized,
    UnexpectedError(String),
}

#[derive(Debug, PartialEq, Eq)]
pub enum ExportError {
    Unauthorized,
    UnexpectedError(String),
}

#[derive(Debug, PartialEq, Eq)]
pub enum QueueTaskError {
    NotFound,
    Unauthorized,
    UnexpectedError(String),
}

#[derive(Debug, PartialEq, Eq)]
pub enum DispenseTaskError {
    NoTasksAvailable,
    Unauthorized,
    UnexpectedError(String),
}

#[derive(Debug, PartialEq, Eq)]
pub enum ListAllowedPrincipalsError {
    Unauthorized,
    UnexpectedError(String),
}

#[derive(Debug, PartialEq, Eq)]
pub enum ModifyAllowedPrincipalError {
    Unauthorized,
    UnexpectedError(String),
}

/// One exported certificate: the registration's name and identifier with
/// its encrypted pair.
#[derive(Debug, PartialEq, Eq)]
pub struct ExportPackage {
    pub name: String,
    pub id: Id,
    pub pair: EncryptedPair,
}

/// The queue memberships a registration's state demands: outside the
/// pipeline for `Available`, otherwise in exactly one of tasks and retries
/// and under the reaper's watch.
pub open spec fn state_queues_ok(st: State, in_tasks: bool, in_retries: bool, in_exps: bool) -> bool {
    if st is Available {
        !in_tasks && !in_retries && !in_exps
    } else {
        (in_tasks != in_retries) && in_exps
    }
}

/// The plain contents of an export package: name, identifier, private key
/// bytes, certificate bytes.
pub open spec fn pkg_view(p: ExportPackage) -> (Seq<char>, Seq<char>, Seq<u8>, Seq<u8>) {
    (p.name@, p.id@, p.pair.0@, p.pair.1@)
}

/// What an export returns: one package per `Available` registration with a
/// stored pair, in registration-store order.
pub open spec fn export_of(
    regs: Seq<(String, Registration)>,
    certs: Seq<(String, EncryptedPair)>,
) -> Seq<(Seq<char>, Seq<char>, Seq<u8>, Seq<u8>)>
    decreases regs.len(),
{
    if regs.len() == 0 {
        Seq::empty()
    } else {
        let front = export_of(regs.drop_last(), certs);
        let e = regs.last();
        if e.1.state is Available && m_has(certs, e.0@) {
            front + seq![(e.1.name@, e.0@, m_get(certs, e.0@).0@, m_get(certs, e.0@).1@)]
        } else {
            front
        }
    }
}

/// Every name-index entry points at a stored registration carrying that
/// name.
pub open spec fn names_sound(regs: Seq<(String, Registration)>, names: Seq<(String, Id)>) -> bool {
    forall|n: Seq<char>|
        #[trigger] m_has(names, n) ==> m_has(regs, m_get(names, n)@) && m_get(
            regs,
            m_get(names, n)@,
        ).name@ == n
}

/// Every registration that is not `Available` is the current holder of its
/// name's index entry.
pub open spec fn names_complete(
    regs: Seq<(String, Registration)>,
    names: Seq<(String, Id)>,
) -> bool {
    forall|x: Seq<char>|
        #[trigger] m_has(regs, x) && !(m_get(regs, x).state is Available) ==> m_has(
            names,
            m_get(regs, x).name@,
        ) && m_get(names, m_get(regs, x).name@)@ == x
}

/// Every stored registration has the queue memberships its state demands.
pub open spec fn queues_consistent(
    regs: Seq<(String, Registration)>,
    tasks: Seq<(u64, Seq<char>)>,
    retries: Seq<(u64, Seq<char>)>,
    exps: Seq<(u64, Seq<char>)>,
) -> bool {
    forall|x: Seq<char>|
        #[trigger] m_has(regs, x) ==> state_queues_ok(
            m_get(regs, x).state,
            q_has(tasks, x),
            q_has(retries, x),
            q_has(exps, x),
        )
}

/// Every queue entry points at a stored registration.
pub open spec fn queue_covered(regs: Seq<(String, Registration)>, q: Seq<(u64, Seq<char>)>) -> bool {
    forall|x: Seq<char>| #[trigger] q_has(q, x) ==> m_has(regs, x)
}

/// Every stored identifier was emitted by the generator under a counter
/// value below the current one.
pub open spec fn fresh_ids(regs: Seq<(String, Registration)>, seed: u128, counter: u128) -> bool {
    forall|x: Seq<char>|
        #[trigger] m_has(regs, x) ==> exists|c: u128| c < counter && x == id_chars(seed, c)
}

/// Identifier freshness survives any step that adds no registration and
/// does not lower the counter.
proof fn lemma_fresh_ids_preserved(
    regs0: Seq<(String, Registration)>,
    regs2: Seq<(String, Registration)>,
    seed: u128,
    c0: u128,
    c2: u128,
)
    requires
        fresh_ids(regs0, seed, c0),
        c0 <= c2,
        forall|x: Seq<char>| #[trigger] m_has(regs2, x) ==> m_has(regs0, x),
    ensures
        fresh_ids(regs2, seed, c2),
{
    assert forall|x: Seq<char>| #[trigger] m_has(regs2, x) implies exists|c: u128|
        c < c2 && x == id_chars(seed, c) by {
        assert(m_has(regs0, x));
        let c = choose|c: u128| c < c0 && x == id_chars(seed, c);
        assert(c < c2 && x == id_chars(seed, c));
    }
}

/// The engine.
pub struct Orchestrator {
    root_principals: PrincipalSet,
    allowed_principals: PrincipalSet,
    id_seed: u128,
    id_counter: u128,
    registrations: AssocMap<Registration>,
    names: AssocMap<Id>,
    certificates: AssocMap<EncryptedPair>,
    tasks: TimeQueue,
    retries: TimeQueue,
    expirations: TimeQueue,
}

impl Orchestrator {
    pub closed spec fn registrations_view(&self) -> Seq<(String, Registration)> {
        self.registrations.entries()
    }

    pub closed spec fn names_view(&self) -> Seq<(String, Id)> {
        self.names.entries()
    }

    pub closed spec fn certificates_view(&self) -> Seq<(String, EncryptedPair)> {
        self.certificates.entries()
    }

    pub closed spec fn tasks_view(&self) -> Seq<(u64, Seq<char>)> {
        self.tasks@
    }

    pub closed spec fn retries_view(&self) -> Seq<(u64, Seq<char>)> {
        self.retries@
    }

    pub closed spec fn expirations_view(&self) -> Seq<(u64, Seq<char>)> {
        self.expirations@
    }

    pub closed spec fn seed_view(&self) -> u128 {
        self.id_seed
    }

    pub closed spec fn counter_view(&self) -> u128 {
        self.id_counter
    }

    pub closed spec fn roots_view(&self) -> Seq<(String, ())> {
        self.root_principals.entries()
    }

    pub closed spec fn allowed_view(&self) -> Seq<(String, ())> {
        self.allowed_principals.entries()
    }

    /// Whether this principal may invoke business operations.
    pub open spec fn is_allowed(&self, caller: Seq<char>) -> bool {
        m_has(self.allowed_view(), caller)
    }

    /// Whether this principal may edit the allowlist.
    pub open spec fn is_root(&self, caller: Seq<char>) -> bool {
        m_has(self.roots_view(), caller)
    }

    /// Whether a registration is stored under this identifier.
    pub open spec fn has_registration(&self, id: Seq<char>) -> bool {
        m_has(self.registrations_view(), id)
    }

    /// The registration stored under this identifier.
    pub open spec fn registration_of(&self, id: Seq<char>) -> Registration {
        m_get(self.registrations_view(), id)
    }

    /// Whether a certificate pair is stored under this identifier.
    pub open spec fn has_certificate(&self, id: Seq<char>) -> bool {
        m_has(self.certificates_view(), id)
    }

    /// The certificate pair stored under this identifier.
    pub open spec fn certificate_of(&self, id: Seq<char>) -> EncryptedPair {
        m_get(self.certificates_view(), id)
    }

    /// Whether the name index maps this name to this identifier.
    pub open spec fn name_maps_to(&self, name: Seq<char>, id: Seq<char>) -> bool {
        m_has(self.names_view(), name) && m_get(self.names_view(), name)@ == id
    }

    /// The principal sets are unchanged.
    pub open spec fn same_acls(pre: &Orchestrator, post: &Orchestrator) -> bool {
        post.roots_view() == pre.roots_view() && post.allowed_view() == pre.allowed_view()
    }

    /// Seed and counter are unchanged.
    pub open spec fn same_id_generator(pre: &Orchestrator, post: &Orchestrator) -> bool {
        post.seed_view() == pre.seed_view() && post.counter_view() == pre.counter_view()
    }

    /// Registrations, name index and certificates are unchanged.
    pub open spec fn same_stores(pre: &Orchestrator, post: &Orchestrator) -> bool {
        post.registrations_view() == pre.registrations_view() && post.names_view()
            == pre.names_view() && post.certificates_view() == pre.certificates_view()
    }

    /// The three queues are unchanged.
    pub open spec fn same_queues(pre: &Orchestrator, post: &Orchestrator) -> bool {
        post.tasks_view() == pre.tasks_view() && post.retries_view() == pre.retries_view()
            && post.expirations_view() == pre.expirations_view()
    }

    /// The engine's invariant.
    pub closed spec fn wf(&self) -> bool {
        let regs = self.registrations.entries();
        let names = self.names.entries();
        let tasks = self.tasks@;
        let retries = self.retries@;
        let exps = self.expirations@;
        &&& self.registrations.wf()
        &&& self.names.wf()
        &&& self.certificates.wf()
        &&& self.root_principals.wf()
        &&& self.allowed_principals.wf()
        &&& self.tasks.wf()
        &&& self.retries.wf()
        &&& self.expirations.wf()
        &&& names_sound(regs, names)
        &&& names_complete(regs, names)
        &&& queues_consistent(regs, tasks, retries, exps)
        &&& queue_covered(regs, tasks)
        &&& queue_covered(regs, retries)
        &&& queue_covered(regs, exps)
        &&& fresh_ids(regs, self.id_seed, self.id_counter)
    }

    /// A fresh engine: the given root principals, an empty allowlist, the
    /// identifier seed, and nothing enrolled.
    pub fn new(root_principals: Vec<String>, id_seed: u128) -> (r: Orchestrator)
        ensures
            r.wf(),
            forall|p: Seq<char>|
                r.is_root(p) <==> exists|i: int|
                    0 <= i < root_principals@.len() && #[trigger] root_principals@[i]@ == p,
            r.allowed_view().len() == 0,
            r.registrations_view().len() == 0,
            r.names_view().len() == 0,
            r.certificates_view().len() == 0,
            r.tasks_view().len() == 0,
            r.retries_view().len() == 0,
            r.expirations_view().len() == 0,
            r.seed_view() == id_seed,
            r.counter_view() == 0,
    {
        let mut roots: PrincipalSet = AssocMap::new();
        let n = root_principals.len();
        let mut i: usize = 0;
        while i < n
            invariant
                i <= n,
                n == root_principals@.len(),
                roots.wf(),
                forall|p: Seq<char>|
                    m_has(roots.entries(), p) <==> exists|j: int|
                        0 <= j < i && #[trigger] root_principals@[j]@ == p,
            decreases n - i,
        {
            let p = root_principals[i].clone();
            let ghost pre = roots.entries();
            roots.insert(p, ());
            proof {
                assert forall|x: Seq<char>|
                    m_has(roots.entries(), x) <==> exists|j: int|
                        0 <= j < i + 1 && #[trigger] root_principals@[j]@ == x by {
                    if x == root_principals@[i as int]@ {
                        assert(m_has(roots.entries(), x));
                    } else {
                        assert(m_has(roots.entries(), x) == m_has(pre, x));
                        if exists|j: int| 0 <= j < i + 1 && #[trigger] root_principals@[j]@ == x {
                            let j = choose|j: int|
                                0 <= j < i + 1 && #[trigger] root_principals@[j]@ == x;
                            assert(j < i);
                        }
                    }
                }
            }
            i = i + 1;
        }
        let r = Orchestrator {
            root_principals: roots,
            allowed_principals: AssocMap::new(),
            id_seed,
            id_counter: 0,
            registrations: AssocMap::new(),
            names: AssocMap::new(),
            certificates: AssocMap::new(),
            tasks: TimeQueue::new(),
            retries: TimeQueue::new(),
            expirations: TimeQueue::new(),
        };
        r
    }

    /// A live (non-`Available`) registration already holds this name.
    pub open spec fn duplicate_of(&self, name: Seq<char>) -> bool {
        m_has(self.names_view(), name) && !(self.registration_of(
            m_get(self.names_view(), name)@,
        ).state is Available)
    }

    /// Enrolls a name.  The name must be a valid domain name and not held
    /// by a live registration; a new `PendingOrder` registration is then
    /// stored under a fresh identifier, its name is indexed, its first
    /// task is scheduled immediately and its expiration one TTL ahead.  A
    /// name whose previous registration is `Available` may be enrolled
    /// again (renewal); the index entry then moves to the new
    /// registration.
    pub fn create_registration(
        &mut self,
        caller: &String,
        name: &String,
        canister: &String,
        now: u64,
    ) -> (r: Result<Id, CreateError>)
        requires
            old(self).wf(),
            now <= MAX_TIMESTAMP_NS,
        ensures
            final(self).wf(),
            !old(self).is_allowed(caller@) ==> r == Result::<Id, CreateError>::Err(
                CreateError::Unauthorized,
            ) && *final(self) == *old(self),
            old(self).is_allowed(caller@) && !valid_name(name@) ==> (r matches Err(e)
                && e matches CreateError::NameError(_)) && *final(self) == *old(self),
            old(self).is_allowed(caller@) && valid_name(name@) && old(self).duplicate_of(name@)
                ==> (r matches Err(e) && e == CreateError::Duplicate(
                m_get(old(self).names_view(), name@),
            )) && *final(self) == *old(self),
            old(self).is_allowed(caller@) && valid_name(name@) && !old(self).duplicate_of(name@)
                && old(self).counter_view() == u128::MAX ==> (r matches Err(e)
                && e matches CreateError::UnexpectedError(_)) && *final(self) == *old(self),
            old(self).is_allowed(caller@) && valid_name(name@) && !old(self).duplicate_of(name@)
                && old(self).counter_view() < u128::MAX ==> (r matches Ok(id) && {
                &&& id@ == id_chars(old(self).seed_view(), old(self).counter_view())
                &&& final(self).counter_view() == old(self).counter_view() + 1
                &&& final(self).seed_view() == old(self).seed_view()
                &&& final(self).has_registration(id@)
                &&& final(self).registration_of(id@) == (Registration {
                    name: *name,
                    canister: *canister,
                    state: State::PendingOrder,
                    created_at: now,
                })
                &&& forall|x: Seq<char>|
                    x != id@ ==> final(self).has_registration(x) == old(self).has_registration(x)
                        && (old(self).has_registration(x) ==> final(self).registration_of(x) == old(
                        self,
                    ).registration_of(x))
                &&& final(self).name_maps_to(name@, id@)
                &&& forall|nm: Seq<char>|
                    nm != name@ ==> m_has(final(self).names_view(), nm) == m_has(
                        old(self).names_view(),
                        nm,
                    ) && (m_has(old(self).names_view(), nm) ==> m_get(final(self).names_view(), nm)
                        == m_get(old(self).names_view(), nm))
                &&& q_has(final(self).tasks_view(), id@) && q_time_of(final(self).tasks_view(), id@)
                    == now
                &&& forall|x: Seq<char>|
                    x != id@ ==> q_has(final(self).tasks_view(), x) == q_has(
                        old(self).tasks_view(),
                        x,
                    ) && (q_has(old(self).tasks_view(), x) ==> q_time_of(final(self).tasks_view(), x)
                        == q_time_of(old(self).tasks_view(), x))
                &&& q_has(final(self).expirations_view(), id@) && q_time_of(
                    final(self).expirations_view(),
                    id@,
                ) == now + REGISTRATION_EXPIRATION_TTL_NS
                &&& forall|x: Seq<char>|
                    x != id@ ==> q_has(final(self).expirations_view(), x) == q_has(
                        old(self).expirations_view(),
                        x,
                    ) && (q_has(old(self).expirations_view(), x) ==> q_time_of(
                        final(self).expirations_view(),
                        x,
                    ) == q_time_of(old(self).expirations_view(), x))
                &&& final(self).tasks_view().len() == old(self).tasks_view().len() + 1
                &&& final(self).expirations_view().len() == old(self).expirations_view().len() + 1
                &&& final(self).retries_view() == old(self).retries_view()
                &&& final(self).certificates_view() == old(self).certificates_view()
                &&& Self::same_acls(old(self), final(self))
            }),
    {
        if let Err(_) = authorize(caller, &self.allowed_principals) {
            return Err(CreateError::Unauthorized);
        }
        if !check_name(name.as_str()) {
            return Err(CreateError::NameError(String::from_str("name is not a valid domain name")));
        }
        let dup_id: Option<Id> = match self.names.get(name) {
            Some(existing) => {
                proof {
                    assert(m_has(self.names.entries(), name@));
                }
                match self.registrations.get(existing) {
                    Some(reg) => match reg.state {
                        State::Available => None,
                        _ => Some(existing.clone()),
                    },
                    None => {
                        // The name index only ever points at stored
                        // registrations, so this lookup cannot miss.
                        proof {
                            assert(false);
                        }
                        None
                    },
                }
            },
            None => None,
        };
        if let Some(d) = dup_id {
            return Err(CreateError::Duplicate(d));
        }
        if self.id_counter == u128::MAX {
            return Err(CreateError::UnexpectedError(String::from_str("identifier space exhausted")));
        }
        let ghost pre = *self;
        let id = generate_id(self.id_seed, self.id_counter);
        proof {
            if m_has(pre.registrations_view(), id@) {
                let c = choose|c: u128|
                    c < pre.counter_view() && id@ == id_chars(pre.seed_view(), c);
                lemma_id_collision_free(pre.seed_view(), c, pre.counter_view());
            }
            assert(!m_has(pre.registrations_view(), id@));
            assert(!q_has(pre.tasks_view(), id@));
            assert(!q_has(pre.retries_view(), id@));
            assert(!q_has(pre.expirations_view(), id@));
        }
        self.id_counter = self.id_counter + 1;
        let reg = Registration {
            name: name.clone(),
            canister: canister.clone(),
            state: State::PendingOrder,
            created_at: now,
        };
        self.registrations.insert(id.clone(), reg);
        self.names.insert(name.clone(), id.clone());
        self.tasks.push_or_update(id.clone(), now);
        self.expirations.push_or_update(id.clone(), now + REGISTRATION_EXPIRATION_TTL_NS);
        proof {
            let regs0 = pre.registrations_view();
            let names0 = pre.names_view();
            let regs2 = self.registrations_view();
            let names2 = self.names_view();
            let tasks2 = self.tasks_view();
            let retries2 = self.retries_view();
            let exps2 = self.expirations_view();
            assert(m_get(regs2, id@).name@ == name@);
            assert(names_sound(regs2, names2)) by {
                assert forall|n: Seq<char>| #[trigger] m_has(names2, n) implies m_has(
                    regs2,
                    m_get(names2, n)@,
                ) && m_get(regs2, m_get(names2, n)@).name@ == n by {
                    if n != name@ {
                        assert(m_has(names0, n));
                        let v = m_get(names0, n);
                        assert(m_has(regs0, v@));
                        assert(v@ != id@);
                    }
                }
            }
            assert(names_complete(regs2, names2)) by {
                assert forall|x: Seq<char>|
                    #[trigger] m_has(regs2, x) && !(m_get(regs2, x).state is Available) implies
                    m_has(names2, m_get(regs2, x).name@) && m_get(names2, m_get(regs2, x).name@)@
                    == x by {
                    if x != id@ {
                        assert(m_has(regs0, x));
                        assert(m_get(regs2, x) == m_get(regs0, x));
                        let nm = m_get(regs0, x).name@;
                        assert(m_has(names0, nm) && m_get(names0, nm)@ == x);
                        if nm == name@ {
                            assert(m_has(regs0, m_get(names0, name@)@));
                            assert(!pre.duplicate_of(name@));
                            assert(m_get(regs0, x).state is Available);
                            assert(false);
                        }
                    }
                }
            }
            assert(queues_consistent(regs2, tasks2, retries2, exps2)) by {
                assert forall|x: Seq<char>| #[trigger] m_has(regs2, x) implies state_queues_ok(
                    m_get(regs2, x).state,
                    q_has(tasks2, x),
                    q_has(retries2, x),
                    q_has(exps2, x),
                ) by {
                    if x != id@ {
                        assert(m_has(regs0, x));
                        assert(m_get(regs2, x) == m_get(regs0, x));
                        assert(q_has(tasks2, x) == q_has(pre.tasks_view(), x));
                        assert(q_has(exps2, x) == q_has(pre.expirations_view(), x));
                    }
                }
            }
            assert(queue_covered(regs2, tasks2)) by {
                assert forall|x: Seq<char>| #[trigger] q_has(tasks2, x) implies m_has(
                    regs2,
                    x,
                ) by {
                    if x != id@ {
                        assert(q_has(pre.tasks_view(), x));
                    }
                }
            }
            assert(queue_covered(regs2, retries2)) by {
                assert forall|x: Seq<char>| #[trigger] q_has(retries2, x) implies m_has(
                    regs2,
                    x,
                ) by {
                    assert(q_has(pre.retries_view(), x));
                }
            }
            assert(queue_covered(regs2, exps2)) by {
                assert forall|x: Seq<char>| #[trigger] q_has(exps2, x) implies m_has(regs2, x) by {
                    if x != id@ {
                        assert(q_has(pre.expirations_view(), x));
                    }
                }
            }
            assert(fresh_ids(regs2, self.id_seed, self.id_counter)) by {
                assert forall|x: Seq<char>| #[trigger] m_has(regs2, x) implies exists|c: u128|
                    c < self.id_counter && x == id_chars(self.id_seed, c) by {
                    if x == id@ {
                        assert(pre.counter_view() < self.id_counter && x == id_chars(
                            self.id_seed,
                            pre.counter_view(),
                        ));
                    } else {
                        assert(m_has(regs0, x));
                        let c = choose|c: u128|
                            c < pre.counter_view() && x == id_chars(pre.seed_view(), c);
                        assert(c < self.id_counter && x == id_chars(self.id_seed, c));
                    }
                }
            }
        }
        Ok(id)
    }

    /// Retrieves a registration by identifier.
    pub fn get_registration(&self, caller: &String, id: &Id) -> (r: Result<Registration, GetError>)
        requires
            self.wf(),
        ensures
            !self.is_allowed(caller@) ==> r == Result::<Registration, GetError>::Err(
                GetError::Unauthorized,
            ),
            self.is_allowed(caller@) && !self.has_registration(id@) ==> r == Result::<
                Registration,
                GetError,
            >::Err(GetError::NotFound),
            self.is_allowed(caller@) && self.has_registration(id@) ==> r == Result::<
                Registration,
                GetError,
            >::Ok(self.registration_of(id@)),
    {
        if let Err(_) = authorize(caller, &self.allowed_principals) {
            return Err(GetError::Unauthorized);
        }
        match self.registrations.get(id) {
            Some(reg) => Ok(reg.duplicate()),
            None => Err(GetError::NotFound),
        }
    }

    /// The registration exists and still holds its name's index entry.  A
    /// superseded registration (one whose name was re-enrolled after it
    /// became `Available`) is no longer current.
    pub open spec fn is_current(&self, id: Seq<char>) -> bool {
        self.has_registration(id) && self.name_maps_to(self.registration_of(id).name@, id)
    }

    /// Moves a registration to a new state and reschedules it.  `Available`
    /// leaves the pipeline entirely; `Failed` parks the registration in the
    /// retry queue one back-off ahead; any other state keeps the
    /// registration where it sits (or re-queues an `Available` one
    /// immediately).  Every state but `Available` refreshes the expiration
    /// to one TTL ahead.  A superseded registration is treated as not
    /// found, so the name index stays consistent.
    pub fn update_registration(&mut self, caller: &String, id: &Id, state: State, now: u64) -> (r:
        Result<(), UpdateError>)
        requires
            old(self).wf(),
            now <= MAX_TIMESTAMP_NS,
        ensures
            final(self).wf(),
            !old(self).is_allowed(caller@) ==> r == Result::<(), UpdateError>::Err(
                UpdateError::Unauthorized,
            ) && *final(self) == *old(self),
            old(self).is_allowed(caller@) && !old(self).is_current(id@) ==> r == Result::<
                (),
                UpdateError,
            >::Err(UpdateError::NotFound) && *final(self) == *old(self),
            old(self).is_allowed(caller@) && old(self).is_current(id@) ==> r == Result::<
                (),
                UpdateError,
            >::Ok(()) && {
                let reg0 = old(self).registration_of(id@);
                &&& final(self).has_registration(id@)
                &&& final(self).registration_of(id@) == (Registration {
                    name: reg0.name,
                    canister: reg0.canister,
                    state: state,
                    created_at: reg0.created_at,
                })
                &&& forall|x: Seq<char>|
                    x != id@ ==> final(self).has_registration(x) == old(self).has_registration(x)
                        && (old(self).has_registration(x) ==> final(self).registration_of(x) == old(
                        self,
                    ).registration_of(x))
                &&& final(self).names_view() == old(self).names_view()
                &&& final(self).certificates_view() == old(self).certificates_view()
                &&& Self::same_acls(old(self), final(self))
                &&& Self::same_id_generator(old(self), final(self))
                &&& (state is Available ==> !q_has(final(self).tasks_view(), id@) && !q_has(
                    final(self).retries_view(),
                    id@,
                ) && !q_has(final(self).expirations_view(), id@))
                &&& (state is Failed ==> !q_has(final(self).tasks_view(), id@) && q_has(
                    final(self).retries_view(),
                    id@,
                ) && q_time_of(final(self).retries_view(), id@) == now + RETRY_DELAY_NS && q_has(
                    final(self).expirations_view(),
                    id@,
                ) && q_time_of(final(self).expirations_view(), id@) == now
                    + REGISTRATION_EXPIRATION_TTL_NS)
                &&& (!(state is Available) && !(state is Failed) ==> q_has(
                    final(self).expirations_view(),
                    id@,
                ) && q_time_of(final(self).expirations_view(), id@) == now
                    + REGISTRATION_EXPIRATION_TTL_NS && (if q_has(old(self).tasks_view(), id@)
                    || q_has(old(self).retries_view(), id@) {
                    final(self).tasks_view() == old(self).tasks_view() && final(self).retries_view()
                        == old(self).retries_view()
                } else {
                    q_has(final(self).tasks_view(), id@) && q_time_of(final(self).tasks_view(), id@)
                        == now && final(self).retries_view() == old(self).retries_view()
                }))
                &&& forall|x: Seq<char>|
                    x != id@ ==> q_has(final(self).tasks_view(), x) == q_has(
                        old(self).tasks_view(),
                        x,
                    ) && (q_has(old(self).tasks_view(), x) ==> q_time_of(final(self).tasks_view(), x)
                        == q_time_of(old(self).tasks_view(), x))
                &&& forall|x: Seq<char>|
                    x != id@ ==> q_has(final(self).retries_view(), x) == q_has(
                        old(self).retries_view(),
                        x,
                    ) && (q_has(old(self).retries_view(), x) ==> q_time_of(
                        final(self).retries_view(),
                        x,
                    ) == q_time_of(old(self).retries_view(), x))
                &&& forall|x: Seq<char>|
                    x != id@ ==> q_has(final(self).expirations_view(), x) == q_has(
                        old(self).expirations_view(),
                        x,
                    ) && (q_has(old(self).expirations_view(), x) ==> q_time_of(
                        final(self).expirations_view(),
                        x,
                    ) == q_time_of(old(self).expirations_view(), x))
            },
    {
        if let Err(_) = authorize(caller, &self.allowed_principals) {
            return Err(UpdateError::Unauthorized);
        }
        let reg0 = match self.registrations.get(id) {
            Some(r) => r.duplicate(),
            None => {
                return Err(UpdateError::NotFound);
            },
        };
        let holder_ok = match self.names.get(&reg0.name) {
            Some(v) => *v == *id,
            None => false,
        };
        if !holder_ok {
            return Err(UpdateError::NotFound);
        }
        let is_avail = match state {
            State::Available => true,
            _ => false,
        };
        let is_failed = match state {
            State::Failed(_) => true,
            _ => false,
        };
        let ghost pre = *self;
        let new_reg = Registration {
            name: reg0.name,
            canister: reg0.canister,
            state: state,
            created_at: reg0.created_at,
        };
        self.registrations.insert(id.clone(), new_reg);
        if is_avail {
            self.tasks.remove_by_key(id);
            self.retries.remove_by_key(id);
            self.expirations.remove_by_key(id);
        } else if is_failed {
            self.tasks.remove_by_key(id);
            self.retries.push_or_update(id.clone(), now + RETRY_DELAY_NS);
            self.expirations.push_or_update(id.clone(), now + REGISTRATION_EXPIRATION_TTL_NS);
        } else {
            let in_t = self.tasks.contains_key(id);
            let in_r = self.retries.contains_key(id);
            if !in_t && !in_r {
                self.tasks.push_or_update(id.clone(), now);
            }
            self.expirations.push_or_update(id.clone(), now + REGISTRATION_EXPIRATION_TTL_NS);
        }
        proof {
            self.lemma_update_wf(&pre, id@);
        }
        Ok(())
    }

    /// Re-establishes the invariant after an update-shaped step: the
    /// registration under `id` was rewritten keeping its name, the name
    /// index is untouched, and `id`'s queue memberships were brought in
    /// line with its new state while every other key kept its entries.
    proof fn lemma_update_wf(&self, pre: &Orchestrator, id: Seq<char>)
        requires
            pre.wf(),
            self.registrations.wf(),
            self.names == pre.names,
            self.certificates == pre.certificates,
            self.root_principals == pre.root_principals,
            self.allowed_principals == pre.allowed_principals,
            self.id_seed == pre.id_seed,
            self.id_counter == pre.id_counter,
            self.tasks.wf(),
            self.retries.wf(),
            self.expirations.wf(),
            m_has(pre.registrations_view(), id),
            m_has(self.registrations_view(), id),
            m_get(self.registrations_view(), id).name@ == m_get(pre.registrations_view(), id).name@,
            m_has(pre.names_view(), m_get(pre.registrations_view(), id).name@),
            m_get(pre.names_view(), m_get(pre.registrations_view(), id).name@)@ == id,
            forall|x: Seq<char>|
                x != id ==> m_has(self.registrations_view(), x) == m_has(
                    pre.registrations_view(),
                    x,
                ) && (m_has(pre.registrations_view(), x) ==> m_get(self.registrations_view(), x)
                    == m_get(pre.registrations_view(), x)),
            state_queues_ok(
                m_get(self.registrations_view(), id).state,
                q_has(self.tasks_view(), id),
                q_has(self.retries_view(), id),
                q_has(self.expirations_view(), id),
            ),
            forall|x: Seq<char>|
                x != id ==> q_has(self.tasks_view(), x) == q_has(pre.tasks_view(), x),
            forall|x: Seq<char>|
                x != id ==> q_has(self.retries_view(), x) == q_has(pre.retries_view(), x),
            forall|x: Seq<char>|
                x != id ==> q_has(self.expirations_view(), x) == q_has(pre.expirations_view(), x),
        ensures
            self.wf(),
    {
        let regs0 = pre.registrations_view();
        let regs2 = self.registrations_view();
        let names = self.names_view();
        assert(names_sound(regs2, names)) by {
            assert forall|n: Seq<char>| #[trigger] m_has(names, n) implies m_has(
                regs2,
                m_get(names, n)@,
            ) && m_get(regs2, m_get(names, n)@).name@ == n by {
                assert(m_has(pre.names_view(), n));
                let v = m_get(names, n);
                assert(m_has(regs0, v@) && m_get(regs0, v@).name@ == n);
                if v@ == id {
                    assert(m_get(regs2, id).name@ == m_get(regs0, id).name@);
                }
            }
        }
        assert(names_complete(regs2, names)) by {
            assert forall|x: Seq<char>|
                #[trigger] m_has(regs2, x) && !(m_get(regs2, x).state is Available) implies m_has(
                names,
                m_get(regs2, x).name@,
            ) && m_get(names, m_get(regs2, x).name@)@ == x by {
                if x == id {
                    assert(m_get(regs2, id).name@ == pre.registration_of(id).name@);
                } else {
                    assert(m_has(regs0, x) && m_get(regs2, x) == m_get(regs0, x));
                }
            }
        }
        assert(queues_consistent(
            regs2,
            self.tasks_view(),
            self.retries_view(),
            self.expirations_view(),
        )) by {
            assert forall|x: Seq<char>| #[trigger] m_has(regs2, x) implies state_queues_ok(
                m_get(regs2, x).state,
                q_has(self.tasks_view(), x),
                q_has(self.retries_view(), x),
                q_has(self.expirations_view(), x),
            ) by {
                if x != id {
                    assert(m_has(regs0, x) && m_get(regs2, x) == m_get(regs0, x));
                }
            }
        }
        assert(queue_covered(regs2, self.tasks_view())) by {
            assert forall|x: Seq<char>| #[trigger] q_has(self.tasks_view(), x) implies m_has(
                regs2,
                x,
            ) by {
                if x != id {
                    assert(q_has(pre.tasks_view(), x));
                }
            }
        }
        assert(queue_covered(regs2, self.retries_view())) by {
            assert forall|x: Seq<char>| #[trigger] q_has(self.retries_view(), x) implies m_has(
                regs2,
                x,
            ) by {
                if x != id {
                    assert(q_has(pre.retries_view(), x));
                }
            }
        }
        assert(queue_covered(regs2, self.expirations_view())) by {
            assert forall|x: Seq<char>| #[trigger] q_has(self.expirations_view(), x) implies m_has(
                regs2,
                x,
            ) by {
                if x != id {
                    assert(q_has(pre.expirations_view(), x));
                }
            }
        }
        assert(fresh_ids(regs2, self.id_seed, self.id_counter)) by {
            lemma_fresh_ids_preserved(regs0, regs2, pre.id_seed, pre.id_counter, pre.id_counter);
        }
    }

    /// Stores a certificate pair and makes the registration `Available`,
    /// leaving the pipeline: its task, retry and expiration entries are
    /// dropped.
    pub fn upload_certificate(&mut self, caller: &String, id: &Id, pair: EncryptedPair) -> (r:
        Result<(), UploadError>)
        requires
            old(self).wf(),
        ensures
            final(self).wf(),
            !old(self).is_allowed(caller@) ==> r == Result::<(), UploadError>::Err(
                UploadError::Unauthorized,
            ) && *final(self) == *old(self),
            old(self).is_allowed(caller@) && !old(self).has_registration(id@) ==> r == Result::<
                (),
                UploadError,
            >::Err(UploadError::NotFound) && *final(self) == *old(self),
            old(self).is_allowed(caller@) && old(self).has_registration(id@) ==> r == Result::<
                (),
                UploadError,
            >::Ok(()) && {
                let reg0 = old(self).registration_of(id@);
                &&& final(self).has_certificate(id@) && final(self).certificate_of(id@) == pair
                &&& forall|x: Seq<char>|
                    x != id@ ==> final(self).has_certificate(x) == old(self).has_certificate(x) && (
                    old(self).has_certificate(x) ==> final(self).certificate_of(x) == old(
                        self,
                    ).certificate_of(x))
                &&& final(self).has_registration(id@)
                &&& final(self).registration_of(id@) == (Registration {
                    name: reg0.name,
                    canister: reg0.canister,
                    state: State::Available,
                    created_at: reg0.created_at,
                })
                &&& forall|x: Seq<char>|
                    x != id@ ==> final(self).has_registration(x) == old(self).has_registration(x)
                        && (old(self).has_registration(x) ==> final(self).registration_of(x) == old(
                        self,
                    ).registration_of(x))
                &&& final(self).names_view() == old(self).names_view()
                &&& Self::same_acls(old(self), final(self))
                &&& Self::same_id_generator(old(self), final(self))
                &&& !q_has(final(self).tasks_view(), id@) && !q_has(final(self).retries_view(), id@)
                    && !q_has(final(self).expirations_view(), id@)
                &&& forall|x: Seq<char>|
                    x != id@ ==> q_has(final(self).tasks_view(), x) == q_has(
                        old(self).tasks_view(),
                        x,
                    ) && (q_has(old(self).tasks_view(), x) ==> q_time_of(final(self).tasks_view(), x)
                        == q_time_of(old(self).tasks_view(), x))
                &&& forall|x: Seq<char>|
                    x != id@ ==> q_has(final(self).retries_view(), x) == q_has(
                        old(self).retries_view(),
                        x,
                    ) && (q_has(old(self).retries_view(), x) ==> q_time_of(
                        final(self).retries_view(),
                        x,
                    ) == q_time_of(old(self).retries_view(), x))
                &&& forall|x: Seq<char>|
                    x != id@ ==> q_has(final(self).expirations_view(), x) == q_has(
                        old(self).expirations_view(),
                        x,
                    ) && (q_has(old(self).expirations_view(), x) ==> q_time_of(
                        final(self).expirations_view(),
                        x,
                    ) == q_time_of(old(self).expirations_view(), x))
            },
    {
        if let Err(_) = authorize(caller, &self.allowed_principals) {
            return Err(UploadError::Unauthorized);
        }
        let reg0 = match self.registrations.get(id) {
            Some(r) => r.duplicate(),
            None => {
                return Err(UploadError::NotFound);
            },
        };
        let ghost pre = *self;
        let new_reg = Registration {
            name: reg0.name,
            canister: reg0.canister,
            state: State::Available,
            created_at: reg0.created_at,
        };
        self.registrations.insert(id.clone(), new_reg);
        self.certificates.insert(id.clone(), pair);
        self.tasks.remove_by_key(id);
        self.retries.remove_by_key(id);
        self.expirations.remove_by_key(id);
        proof {
            self.lemma_upload_wf(&pre, id@);
        }
        Ok(())
    }

    /// Re-establishes the invariant after an upload: the registration
    /// under `id` became `Available` keeping its name, and `id` left all
    /// three queues while every other key kept its entries.
    proof fn lemma_upload_wf(&self, pre: &Orchestrator, id: Seq<char>)
        requires
            pre.wf(),
            self.registrations.wf(),
            self.certificates.wf(),
            self.names == pre.names,
            self.root_principals == pre.root_principals,
            self.allowed_principals == pre.allowed_principals,
            self.id_seed == pre.id_seed,
            self.id_counter == pre.id_counter,
            self.tasks.wf(),
            self.retries.wf(),
            self.expirations.wf(),
            m_has(pre.registrations_view(), id),
            m_has(self.registrations_view(), id),
            m_get(self.registrations_view(), id).name@ == m_get(pre.registrations_view(), id).name@,
            m_get(self.registrations_view(), id).state is Available,
            forall|x: Seq<char>|
                x != id ==> m_has(self.registrations_view(), x) == m_has(
                    pre.registrations_view(),
                    x,
                ) && (m_has(pre.registrations_view(), x) ==> m_get(self.registrations_view(), x)
                    == m_get(pre.registrations_view(), x)),
            !q_has(self.tasks_view(), id),
            !q_has(self.retries_view(), id),
            !q_has(self.expirations_view(), id),
            forall|x: Seq<char>|
                x != id ==> q_has(self.tasks_view(), x) == q_has(pre.tasks_view(), x),
            forall|x: Seq<char>|
                x != id ==> q_has(self.retries_view(), x) == q_has(pre.retries_view(), x),
            forall|x: Seq<char>|
                x != id ==> q_has(self.expirations_view(), x) == q_has(pre.expirations_view(), x),
        ensures
            self.wf(),
    {
        let regs0 = pre.registrations_view();
        let regs2 = self.registrations_view();
        let names = self.names_view();
        assert(names_sound(regs2, names)) by {
            assert forall|n: Seq<char>| #[trigger] m_has(names, n) implies m_has(
                regs2,
                m_get(names, n)@,
            ) && m_get(regs2, m_get(names, n)@).name@ == n by {
                assert(m_has(pre.names_view(), n));
                let v = m_get(names, n);
                assert(m_has(regs0, v@) && m_get(regs0, v@).name@ == n);
                if v@ == id {
                    assert(m_get(regs2, id).name@ == m_get(regs0, id).name@);
                }
            }
        }
        assert(names_complete(regs2, names)) by {
            assert forall|x: Seq<char>|
                #[trigger] m_has(regs2, x) && !(m_get(regs2, x).state is Available) implies m_has(
                names,
                m_get(regs2, x).name@,
            ) && m_get(names, m_get(regs2, x).name@)@ == x by {
                assert(x != id);
                assert(m_has(regs0, x) && m_get(regs2, x) == m_get(regs0, x));
            }
        }
        assert(queues_consistent(
            regs2,
            self.tasks_view(),
            self.retries_view(),
            self.expirations_view(),
        )) by {
            assert forall|x: Seq<char>| #[trigger] m_has(regs2, x) implies state_queues_ok(
                m_get(regs2, x).state,
                q_has(self.tasks_view(), x),
                q_has(self.retries_view(), x),
                q_has(self.expirations_view(), x),
            ) by {
                if x != id {
                    assert(m_has(regs0, x) && m_get(regs2, x) == m_get(regs0, x));
                }
            }
        }
        assert(queue_covered(regs2, self.tasks_view())) by {
            assert forall|x: Seq<char>| #[trigger] q_has(self.tasks_view(), x) implies m_has(
                regs2,
                x,
            ) by {
                assert(q_has(pre.tasks_view(), x));
            }
        }
        assert(queue_covered(regs2, self.retries_view())) by {
            assert forall|x: Seq<char>| #[trigger] q_has(self.retries_view(), x) implies m_has(
                regs2,
                x,
            ) by {
                assert(q_has(pre.retries_view(), x));
            }
        }
        assert(queue_covered(regs2, self.expirations_view())) by {
            assert forall|x: Seq<char>| #[trigger] q_has(self.expirations_view(), x) implies m_has(
                regs2,
                x,
            ) by {
                assert(q_has(pre.expirations_view(), x));
            }
        }
        assert(fresh_ids(regs2, self.id_seed, self.id_counter)) by {
            lemma_fresh_ids_preserved(regs0, regs2, pre.id_seed, pre.id_counter, pre.id_counter);
        }
    }

    /// Schedules (or reschedules) the registration's task at the given
    /// due-time, releasing any lease it held in the retry queue.  An
    /// absent or `Available` registration is refused.
    pub fn queue_task(&mut self, caller: &String, id: &Id, t: u64) -> (r: Result<
        (),
        QueueTaskError,
    >)
        requires
            old(self).wf(),
        ensures
            final(self).wf(),
            !old(self).is_allowed(caller@) ==> r == Result::<(), QueueTaskError>::Err(
                QueueTaskError::Unauthorized,
            ) && *final(self) == *old(self),
            old(self).is_allowed(caller@) && !(old(self).has_registration(id@) && !(old(
                self,
            ).registration_of(id@).state is Available)) ==> r == Result::<(), QueueTaskError>::Err(
                QueueTaskError::NotFound,
            ) && *final(self) == *old(self),
            old(self).is_allowed(caller@) && old(self).has_registration(id@) && !(old(
                self,
            ).registration_of(id@).state is Available) ==> r == Result::<(), QueueTaskError>::Ok(())
                && {
                &&& q_has(final(self).tasks_view(), id@) && q_time_of(final(self).tasks_view(), id@)
                    == t
                &&& !q_has(final(self).retries_view(), id@)
                &&& forall|x: Seq<char>|
                    x != id@ ==> q_has(final(self).tasks_view(), x) == q_has(
                        old(self).tasks_view(),
                        x,
                    ) && (q_has(old(self).tasks_view(), x) ==> q_time_of(final(self).tasks_view(), x)
                        == q_time_of(old(self).tasks_view(), x))
                &&& forall|x: Seq<char>|
                    x != id@ ==> q_has(final(self).retries_view(), x) == q_has(
                        old(self).retries_view(),
                        x,
                    ) && (q_has(old(self).retries_view(), x) ==> q_time_of(
                        final(self).retries_view(),
                        x,
                    ) == q_time_of(old(self).retries_view(), x))
                &&& final(self).expirations_view() == old(self).expirations_view()
                &&& Self::same_stores(old(self), final(self))
                &&& Self::same_acls(old(self), final(self))
                &&& Self::same_id_generator(old(self), final(self))
            },
    {
        if let Err(_) = authorize(caller, &self.allowed_principals) {
            return Err(QueueTaskError::Unauthorized);
        }
        let live = match self.registrations.get(id) {
            Some(reg) => match reg.state {
                State::Available => false,
                _ => true,
            },
            None => false,
        };
        if !live {
            return Err(QueueTaskError::NotFound);
        }
        let ghost pre = *self;
        self.tasks.push_or_update(id.clone(), t);
        self.retries.remove_by_key(id);
        proof {
            self.lemma_update_wf(&pre, id@);
        }
        Ok(())
    }

    /// The transition a successful dispense makes: the head task, due by
    /// `now`, leaves the task queue and its registration is leased in the
    /// retry queue until `now` plus the lease interval; nothing else moves.
    pub open spec fn dispensed(
        pre: &Orchestrator,
        post: &Orchestrator,
        now: u64,
        id: Seq<char>,
    ) -> bool {
        &&& pre.wf() && post.wf()
        &&& pre.tasks_view().len() > 0 && pre.tasks_view()[0].0 <= now
        &&& id == pre.tasks_view()[0].1
        &&& post.tasks_view() == pre.tasks_view().remove(0)
        &&& !q_has(post.tasks_view(), id)
        &&& q_has(post.retries_view(), id) && q_time_of(post.retries_view(), id) == now
            + IN_PROGRESS_TTL_NS
        &&& forall|x: Seq<char>|
            x != id ==> q_has(post.retries_view(), x) == q_has(pre.retries_view(), x) && (q_has(
                pre.retries_view(),
                x,
            ) ==> q_time_of(post.retries_view(), x) == q_time_of(pre.retries_view(), x))
        &&& post.expirations_view() == pre.expirations_view()
        &&& Self::same_stores(pre, post)
        &&& Self::same_acls(pre, post)
        &&& Self::same_id_generator(pre, post)
    }

    /// Hands out the next due task: pops the head of the task queue if its
    /// due-time has arrived and leases it in the retry queue for the
    /// in-progress interval, so a worker that never reports back is
    /// re-armed by the retry sweeper.
    pub fn dispense_task(&mut self, caller: &String, now: u64) -> (r: Result<
        Id,
        DispenseTaskError,
    >)
        requires
            old(self).wf(),
            now <= MAX_TIMESTAMP_NS,
        ensures
            final(self).wf(),
            !old(self).is_allowed(caller@) ==> r == Result::<Id, DispenseTaskError>::Err(
                DispenseTaskError::Unauthorized,
            ) && *final(self) == *old(self),
            old(self).is_allowed(caller@) && !(old(self).tasks_view().len() > 0 && old(
                self,
            ).tasks_view()[0].0 <= now) ==> r == Result::<Id, DispenseTaskError>::Err(
                DispenseTaskError::NoTasksAvailable,
            ) && *final(self) == *old(self),
            old(self).is_allowed(caller@) && old(self).tasks_view().len() > 0 && old(
                self,
            ).tasks_view()[0].0 <= now ==> (r matches Ok(id) && Self::dispensed(
                old(self),
                final(self),
                now,
                id@,
            )),
    {
        if let Err(_) = authorize(caller, &self.allowed_principals) {
            return Err(DispenseTaskError::Unauthorized);
        }
        let ghost pre = *self;
        match self.tasks.pop_due(now) {
            None => Err(DispenseTaskError::NoTasksAvailable),
            Some((_t, id)) => {
                proof {
                    assert(q_has(pre.tasks_view(), id@));
                }
                self.retries.push_or_update(id.clone(), now + IN_PROGRESS_TTL_NS);
                proof {
                    assert(m_has(pre.registrations_view(), id@));
                    assert(!(pre.registration_of(id@).state is Available));
                    self.lemma_update_wf(&pre, id@);
                }
                Ok(id)
            },
        }
    }

    /// Reports the next due task without mutating anything.
    pub fn peek_task(&self, caller: &String, now: u64) -> (r: Result<Id, DispenseTaskError>)
        requires
            self.wf(),
        ensures
            !self.is_allowed(caller@) ==> r == Result::<Id, DispenseTaskError>::Err(
                DispenseTaskError::Unauthorized,
            ),
            self.is_allowed(caller@) && !(self.tasks_view().len() > 0 && self.tasks_view()[0].0
                <= now) ==> r == Result::<Id, DispenseTaskError>::Err(
                DispenseTaskError::NoTasksAvailable,
            ),
            self.is_allowed(caller@) && self.tasks_view().len() > 0 && self.tasks_view()[0].0 <= now
                ==> (r matches Ok(id) && id@ == self.tasks_view()[0].1),
    {
        if let Err(_) = authorize(caller, &self.allowed_principals) {
            return Err(DispenseTaskError::Unauthorized);
        }
        match self.tasks.peek() {
            None => Err(DispenseTaskError::NoTasksAvailable),
            Some((t, id)) => {
                if t <= now {
                    Ok(id)
                } else {
                    Err(DispenseTaskError::NoTasksAvailable)
                }
            },
        }
    }

    /// This identifier's expiration is due at `now`.
    pub open spec fn expired_in(pre: &Orchestrator, now: u64, x: Seq<char>) -> bool {
        q_has(pre.expirations_view(), x) && q_time_of(pre.expirations_view(), x) <= now
    }

    /// The transition a retry sweep makes: every retry entry due by `now`
    /// moves into the task queue, the rest stay with their times, and
    /// nothing else moves.
    pub open spec fn swept(pre: &Orchestrator, post: &Orchestrator, now: u64) -> bool {
        &&& pre.wf() && post.wf()
        &&& forall|x: Seq<char>|
            #[trigger] q_has(post.tasks_view(), x) <==> q_has(pre.tasks_view(), x) || (q_has(
                pre.retries_view(),
                x,
            ) && q_time_of(pre.retries_view(), x) <= now)
        &&& forall|x: Seq<char>|
            #[trigger] q_has(post.retries_view(), x) <==> (q_has(pre.retries_view(), x)
                && q_time_of(pre.retries_view(), x) > now)
        &&& forall|x: Seq<char>|
            #[trigger] q_has(post.retries_view(), x) ==> q_time_of(post.retries_view(), x)
                == q_time_of(pre.retries_view(), x)
        &&& post.expirations_view() == pre.expirations_view()
        &&& Self::same_stores(pre, post)
        &&& Self::same_acls(pre, post)
        &&& Self::same_id_generator(pre, post)
    }

    /// The three queues hold at most one entry per key, in strictly
    /// ascending `(time, key)` order, so the head is the unique next entry
    /// to serve.
    pub proof fn lemma_queues_ordered(o: &Orchestrator)
        requires
            o.wf(),
        ensures
            q_sorted(o.tasks_view()) && q_unique(o.tasks_view()),
            q_sorted(o.retries_view()) && q_unique(o.retries_view()),
            q_sorted(o.expirations_view()) && q_unique(o.expirations_view()),
    {
    }

    /// A registration that is not `Available` sits in exactly one of the
    /// task and retry queues and under the reaper's watch; an `Available`
    /// one sits in no queue at all.
    pub proof fn lemma_pipeline_membership(o: &Orchestrator, id: Seq<char>)
        requires
            o.wf(),
            o.has_registration(id),
        ensures
            o.registration_of(id).state is Available ==> !q_has(o.tasks_view(), id) && !q_has(
                o.retries_view(),
                id,
            ) && !q_has(o.expirations_view(), id),
            !(o.registration_of(id).state is Available) ==> ((q_has(o.tasks_view(), id) != q_has(
                o.retries_view(),
                id,
            )) && q_has(o.expirations_view(), id)),
    {
    }

    /// The name index and the registration store agree: every index entry
    /// points at a stored registration carrying that name, and every
    /// registration that is not `Available` is the one its name's entry
    /// points at.
    pub proof fn lemma_name_index_agrees(o: &Orchestrator, name: Seq<char>, id: Seq<char>)
        requires
            o.wf(),
        ensures
            m_has(o.names_view(), name) ==> (o.has_registration(m_get(o.names_view(), name)@)
                && o.registration_of(m_get(o.names_view(), name)@).name@ == name),
            o.has_registration(id) && !(o.registration_of(id).state is Available) ==> (m_has(
                o.names_view(),
                o.registration_of(id).name@,
            ) && m_get(o.names_view(), o.registration_of(id).name@)@ == id),
    {
    }

    /// Two consecutive dispenses hand out different identifiers: the first
    /// one's lease keeps it out of the task queue, and a dispense serves
    /// only from the task queue.
    pub proof fn lemma_dispense_distinct(
        o0: &Orchestrator,
        o1: &Orchestrator,
        o2: &Orchestrator,
        now1: u64,
        now2: u64,
        id1: Seq<char>,
        id2: Seq<char>,
    )
        requires
            Self::dispensed(o0, o1, now1, id1),
            Self::dispensed(o1, o2, now2, id2),
        ensures
            id1 != id2,
    {
        assert(q_has(o1.tasks_view(), id2)) by {
            assert(o1.tasks_view()[0].1 == id2);
        }
        if id1 == id2 {
            assert(m_has(o1.registrations_view(), id1));
        }
    }

    /// Within one lease window a dispensed identifier cannot come back,
    /// even through a retry sweep: the sweep runs before the lease is due,
    /// so the lease stays parked and the identifier stays out of the task
    /// queue.
    pub proof fn lemma_lease_blocks_redispense(
        o0: &Orchestrator,
        o1: &Orchestrator,
        o2: &Orchestrator,
        o3: &Orchestrator,
        now1: u64,
        now_sweep: u64,
        now2: u64,
        id1: Seq<char>,
        id2: Seq<char>,
    )
        requires
            Self::dispensed(o0, o1, now1, id1),
            Self::swept(o1, o2, now_sweep),
            Self::dispensed(o2, o3, now2, id2),
            now_sweep < now1 + IN_PROGRESS_TTL_NS,
        ensures
            id1 != id2,
    {
        assert(q_has(o1.retries_view(), id1) && q_time_of(o1.retries_view(), id1) == now1
            + IN_PROGRESS_TTL_NS);
        assert(q_has(o2.retries_view(), id1));
        assert(!q_has(o2.tasks_view(), id1)) by {
            assert(!q_has(o1.tasks_view(), id1));
            assert(m_has(o2.registrations_view(), id1));
        }
        assert(q_has(o2.tasks_view(), id2)) by {
            assert(o2.tasks_view()[0].1 == id2);
        }
    }

    /// Sweeps the retry queue: every entry whose due-time has arrived
    /// moves back into the task queue at `now`.  Expired leases are
    /// re-armed this way, and failed registrations re-enter the pipeline
    /// after their back-off.
    pub fn retry(&mut self, now: u64)
        requires
            old(self).wf(),
        ensures
            final(self).wf(),
            Self::same_stores(old(self), final(self)),
            Self::same_acls(old(self), final(self)),
            Self::same_id_generator(old(self), final(self)),
            final(self).expirations_view() == old(self).expirations_view(),
            forall|x: Seq<char>|
                #[trigger] q_has(final(self).tasks_view(), x) <==> q_has(old(self).tasks_view(), x)
                    || (q_has(old(self).retries_view(), x) && q_time_of(
                    old(self).retries_view(),
                    x,
                ) <= now),
            forall|x: Seq<char>|
                #[trigger] q_has(old(self).tasks_view(), x) ==> q_time_of(
                    final(self).tasks_view(),
                    x,
                ) == q_time_of(old(self).tasks_view(), x),
            forall|x: Seq<char>|
                !q_has(old(self).tasks_view(), x) && #[trigger] q_has(old(self).retries_view(), x)
                    && q_time_of(old(self).retries_view(), x) <= now ==> q_time_of(
                    final(self).tasks_view(),
                    x,
                ) == now,
            forall|x: Seq<char>|
                #[trigger] q_has(final(self).retries_view(), x) <==> (q_has(
                    old(self).retries_view(),
                    x,
                ) && q_time_of(old(self).retries_view(), x) > now),
            forall|x: Seq<char>|
                #[trigger] q_has(final(self).retries_view(), x) ==> q_time_of(
                    final(self).retries_view(),
                    x,
                ) == q_time_of(old(self).retries_view(), x),
            Self::swept(old(self), final(self), now),
    {
        let ghost r0 = old(self).retries_view();
        let ghost mut k: int = 0;
        loop
            invariant
                self.wf(),
                old(self).wf(),
                r0 == old(self).retries_view(),
                0 <= k <= r0.len(),
                q_sorted(r0) && q_unique(r0),
                self.retries_view() == r0.skip(k),
                forall|i: int| 0 <= i < k ==> r0[i].0 <= now,
                Self::same_stores(old(self), self),
                Self::same_acls(old(self), self),
                Self::same_id_generator(old(self), self),
                self.expirations_view() == old(self).expirations_view(),
                forall|x: Seq<char>|
                    #[trigger] q_has(self.tasks_view(), x) <==> q_has(old(self).tasks_view(), x)
                        || q_has(r0.take(k), x),
                forall|x: Seq<char>|
                    #[trigger] q_has(old(self).tasks_view(), x) ==> q_time_of(self.tasks_view(), x)
                        == q_time_of(old(self).tasks_view(), x),
                forall|x: Seq<char>|
                    !q_has(old(self).tasks_view(), x) && #[trigger] q_has(r0.take(k), x)
                        ==> q_time_of(self.tasks_view(), x) == now,
            decreases r0.len() - k,
        {
            if !self.retries.head_due(now) {
                proof {
                        Self::lemma_sweep_done(r0, k, self.retries_view(), now);
                        assert forall|x: Seq<char>| #[trigger] q_has(self.tasks_view(), x) <==>
                            q_has(old(self).tasks_view(), x) || (q_has(r0, x) && q_time_of(r0, x)
                            <= now) by {
                            Self::lemma_prefix_membership(r0, k, now, x);
                        }
                        assert forall|x: Seq<char>|
                            !q_has(old(self).tasks_view(), x) && #[trigger] q_has(r0, x)
                                && q_time_of(r0, x) <= now implies q_time_of(self.tasks_view(), x)
                            == now by {
                            Self::lemma_prefix_membership(r0, k, now, x);
                        }
                        assert forall|x: Seq<char>|
                            #[trigger] q_has(self.retries_view(), x) implies (q_has(r0, x)
                            && q_time_of(r0, x) > now && q_time_of(self.retries_view(), x)
                            == q_time_of(r0, x)) by {
                            Self::lemma_suffix_membership(r0, k, self.retries_view(), now, x);
                        }
                        assert forall|x: Seq<char>|
                            q_has(r0, x) && q_time_of(r0, x) > now implies #[trigger] q_has(
                            self.retries_view(),
                            x,
                        ) by {
                            Self::lemma_suffix_membership(r0, k, self.retries_view(), now, x);
                        }
                    }
                return ;
            }
            let ghost pre = *self;
            let head = self.retries.pop_due(now);
            match head {
                None => {
                    proof {
                        assert(false);
                    }
                    return ;
                },
                Some((_t, id)) => {
                    proof {
                        assert(pre.retries_view()[0] == r0[k]);
                        assert(q_has(pre.retries_view(), id@)) by {
                            assert(pre.retries_view()[0].1 == id@);
                        }
                        assert(m_has(pre.registrations_view(), id@));
                        assert(!(m_get(pre.registrations_view(), id@).state is Available));
                        assert(!q_has(pre.tasks_view(), id@));
                    }
                    self.tasks.push_or_update(id.clone(), now);
                    proof {
                        crate::queue::lemma_q_entry_at(r0, k);
                        self.lemma_update_wf(&pre, id@);
                        assert(self.retries_view() =~= r0.skip(k + 1)) by {
                            assert(pre.retries_view() == r0.skip(k));
                            assert(r0.skip(k).remove(0) =~= r0.skip(k + 1));
                        }
                        assert forall|x: Seq<char>| #[trigger] q_has(self.tasks_view(), x) <==>
                            q_has(old(self).tasks_view(), x) || q_has(r0.take(k + 1), x) by {
                            if x == id@ {
                                assert(r0.take(k + 1)[k] == r0[k]);
                                assert(q_has(r0.take(k + 1), x));
                            } else {
                                assert(q_has(self.tasks_view(), x) == q_has(pre.tasks_view(), x));
                                if q_has(r0.take(k + 1), x) {
                                    let w = choose|i: int|
                                        0 <= i < k + 1 && #[trigger] r0.take(k + 1)[i].1 == x;
                                    assert(r0.take(k + 1)[w] == r0[w]);
                                    assert(w != k);
                                    assert(r0.take(k)[w] == r0[w]);
                                    assert(q_has(r0.take(k), x));
                                }
                                if q_has(r0.take(k), x) {
                                    let w = choose|i: int|
                                        0 <= i < k && #[trigger] r0.take(k)[i].1 == x;
                                    assert(r0.take(k + 1)[w] == r0[w]);
                                }
                            }
                        }
                        assert forall|x: Seq<char>|
                            !q_has(old(self).tasks_view(), x) && #[trigger] q_has(r0.take(k + 1), x)
                                implies q_time_of(self.tasks_view(), x) == now by {
                            if x != id@ {
                                let w = choose|i: int|
                                    0 <= i < k + 1 && #[trigger] r0.take(k + 1)[i].1 == x;
                                assert(r0.take(k)[w] == r0[w]);
                            }
                        }
                        k = k + 1;
                        assert(forall|i: int| 0 <= i < k ==> r0[i].0 <= now);
                    }
                },
            }
        }
    }

    /// When a sweep stops, the processed prefix holds exactly the due
    /// entries.
    proof fn lemma_sweep_done(q: Seq<(u64, Seq<char>)>, k: int, rest: Seq<(u64, Seq<char>)>, now: u64)
        requires
            q_sorted(q) && q_unique(q),
            0 <= k <= q.len(),
            rest == q.skip(k),
            forall|i: int| 0 <= i < k ==> q[i].0 <= now,
            rest.len() == 0 || rest[0].0 > now,
        ensures
            forall|i: int| 0 <= i < q.len() ==> (q[i].0 <= now <==> i < k),
    {
        assert forall|i: int| 0 <= i < q.len() implies (q[i].0 <= now <==> i < k) by {
            if i >= k {
                assert(q[i] == rest[i - k]);
                if i - k > 0 {
                    assert(crate::queue::entry_lt(rest[0], rest[i - k]));
                }
            }
        }
    }

    /// Membership in a sorted queue split at the due boundary.
    proof fn lemma_prefix_membership(q: Seq<(u64, Seq<char>)>, k: int, now: u64, x: Seq<char>)
        requires
            q_sorted(q) && q_unique(q),
            0 <= k <= q.len(),
            forall|i: int| 0 <= i < q.len() ==> (q[i].0 <= now <==> i < k),
        ensures
            q_has(q.take(k), x) <==> (q_has(q, x) && q_time_of(q, x) <= now),
    {
        if q_has(q.take(k), x) {
            let w = choose|i: int| 0 <= i < k && #[trigger] q.take(k)[i].1 == x;
            assert(q.take(k)[w] == q[w]);
            crate::queue::lemma_q_entry_at(q, w);
        }
        if q_has(q, x) && q_time_of(q, x) <= now {
            let w = crate::queue::q_index_of(q, x);
            crate::queue::lemma_q_entry_at(q, w);
            assert(q[w].0 <= now);
            assert(q.take(k)[w] == q[w]);
            assert(q_has(q.take(k), x));
        }
    }

    /// Membership in the suffix a sweep leaves behind.
    proof fn lemma_suffix_membership(
        q: Seq<(u64, Seq<char>)>,
        k: int,
        rest: Seq<(u64, Seq<char>)>,
        now: u64,
        x: Seq<char>,
    )
        requires
            q_sorted(q) && q_unique(q),
            0 <= k <= q.len(),
            rest == q.skip(k),
            forall|i: int| 0 <= i < q.len() ==> (q[i].0 <= now <==> i < k),
        ensures
            q_has(rest, x) <==> (q_has(q, x) && q_time_of(q, x) > now),
            q_has(rest, x) ==> q_time_of(rest, x) == q_time_of(q, x),
    {
        assert(q_sorted(rest) && q_unique(rest)) by {
            assert forall|a: int, b: int|
                0 <= a < b < rest.len() implies crate::queue::entry_lt(rest[a], rest[b])
                && rest[a].1 != rest[b].1 by {
                assert(rest[a] == q[a + k]);
                assert(rest[b] == q[b + k]);
            }
        }
        if q_has(rest, x) {
            let w = choose|i: int| 0 <= i < rest.len() && #[trigger] rest[i].1 == x;
            assert(rest[w] == q[w + k]);
            crate::queue::lemma_q_entry_at(q, w + k);
            crate::queue::lemma_q_entry_at(rest, w);
        }
        if q_has(q, x) && q_time_of(q, x) > now {
            let w = crate::queue::q_index_of(q, x);
            crate::queue::lemma_q_entry_at(q, w);
            assert(w >= k);
            assert(rest[w - k] == q[w]);
            assert(q_has(rest, x));
        }
    }

    /// Reaps every registration whose expiration is due: it is removed
    /// from the registration store, the name index, and all three queues.
    /// Stored certificates are kept.
    pub fn expire(&mut self, now: u64)
        requires
            old(self).wf(),
        ensures
            final(self).wf(),
            Self::same_acls(old(self), final(self)),
            Self::same_id_generator(old(self), final(self)),
            final(self).certificates_view() == old(self).certificates_view(),
            forall|x: Seq<char>|
                #[trigger] Self::expired_in(old(self), now, x) ==> !m_has(
                    final(self).registrations_view(),
                    x,
                ) && !q_has(final(self).tasks_view(), x) && !q_has(final(self).retries_view(), x)
                    && !q_has(final(self).expirations_view(), x),
            forall|n: Seq<char>|
                #[trigger] m_has(final(self).names_view(), n) <==> (m_has(old(self).names_view(), n)
                    && !Self::expired_in(old(self), now, m_get(old(self).names_view(), n)@)),
            forall|n: Seq<char>|
                #[trigger] m_has(final(self).names_view(), n) ==> m_get(final(self).names_view(), n)
                    == m_get(old(self).names_view(), n),
            forall|x: Seq<char>|
                !Self::expired_in(old(self), now, x) ==> m_has(final(self).registrations_view(), x)
                    == m_has(old(self).registrations_view(), x) && (m_has(
                    old(self).registrations_view(),
                    x,
                ) ==> m_get(final(self).registrations_view(), x) == m_get(
                    old(self).registrations_view(),
                    x,
                )),
            forall|x: Seq<char>|
                !Self::expired_in(old(self), now, x) ==> q_has(final(self).tasks_view(), x) == q_has(
                    old(self).tasks_view(),
                    x,
                ) && (q_has(old(self).tasks_view(), x) ==> q_time_of(final(self).tasks_view(), x)
                    == q_time_of(old(self).tasks_view(), x)),
            forall|x: Seq<char>|
                !Self::expired_in(old(self), now, x) ==> q_has(final(self).retries_view(), x)
                    == q_has(old(self).retries_view(), x) && (q_has(old(self).retries_view(), x)
                    ==> q_time_of(final(self).retries_view(), x) == q_time_of(
                    old(self).retries_view(),
                    x,
                )),
            forall|x: Seq<char>|
                !Self::expired_in(old(self), now, x) ==> q_has(final(self).expirations_view(), x)
                    == q_has(old(self).expirations_view(), x) && (q_has(
                    old(self).expirations_view(),
                    x,
                ) ==> q_time_of(final(self).expirations_view(), x) == q_time_of(
                    old(self).expirations_view(),
                    x,
                )),
    {
        let ghost e0 = old(self).expirations_view();
        let ghost mut k: int = 0;
        loop
            invariant
                self.wf(),
                e0 == old(self).expirations_view(),
                0 <= k <= e0.len(),
                q_sorted(e0) && q_unique(e0),
                self.expirations_view() == e0.skip(k),
                forall|i: int| 0 <= i < k ==> e0[i].0 <= now,
                Self::same_acls(old(self), self),
                Self::same_id_generator(old(self), self),
                self.certificates_view() == old(self).certificates_view(),
                forall|x: Seq<char>|
                    #[trigger] m_has(self.registrations_view(), x) <==> (m_has(
                        old(self).registrations_view(),
                        x,
                    ) && !q_has(e0.take(k), x)),
                forall|x: Seq<char>|
                    #[trigger] m_has(self.registrations_view(), x) ==> m_get(
                        self.registrations_view(),
                        x,
                    ) == m_get(old(self).registrations_view(), x),
                forall|n: Seq<char>|
                    #[trigger] m_has(self.names_view(), n) <==> (m_has(old(self).names_view(), n)
                        && !q_has(e0.take(k), m_get(old(self).names_view(), n)@)),
                forall|n: Seq<char>|
                    #[trigger] m_has(self.names_view(), n) ==> m_get(self.names_view(), n) == m_get(
                        old(self).names_view(),
                        n,
                    ),
                forall|x: Seq<char>|
                    !q_has(e0.take(k), x) ==> q_has(self.tasks_view(), x) == q_has(
                        old(self).tasks_view(),
                        x,
                    ) && (q_has(old(self).tasks_view(), x) ==> q_time_of(self.tasks_view(), x)
                        == q_time_of(old(self).tasks_view(), x)),
                forall|x: Seq<char>|
                    !q_has(e0.take(k), x) ==> q_has(self.retries_view(), x) == q_has(
                        old(self).retries_view(),
                        x,
                    ) && (q_has(old(self).retries_view(), x) ==> q_time_of(self.retries_view(), x)
                        == q_time_of(old(self).retries_view(), x)),
                forall|x: Seq<char>| #[trigger] q_has(e0.take(k), x) ==> !q_has(self.tasks_view(), x)
                    && !q_has(self.retries_view(), x) && !q_has(self.expirations_view(), x),
            decreases e0.len() - k,
        {
            if !self.expirations.head_due(now) {
                proof {
                        Self::lemma_sweep_done(e0, k, self.expirations_view(), now);
                        assert forall|x: Seq<char>|
                            #[trigger] Self::expired_in(old(self), now, x) implies !m_has(
                            self.registrations_view(),
                            x,
                        ) && !q_has(self.tasks_view(), x) && !q_has(self.retries_view(), x)
                            && !q_has(self.expirations_view(), x) by {
                            Self::lemma_prefix_membership(e0, k, now, x);
                        }
                        assert forall|x: Seq<char>|
                            !Self::expired_in(old(self), now, x) implies !q_has(
                            e0.take(k),
                            x,
                        ) by {
                            Self::lemma_prefix_membership(e0, k, now, x);
                        }
                        assert forall|n: Seq<char>| #[trigger] m_has(self.names_view(), n) <==> (
                        m_has(old(self).names_view(), n) && !Self::expired_in(
                            old(self),
                            now,
                            m_get(old(self).names_view(), n)@,
                        )) by {
                            Self::lemma_prefix_membership(
                                e0,
                                k,
                                now,
                                m_get(old(self).names_view(), n)@,
                            );
                        }
                        assert forall|x: Seq<char>|
                            !Self::expired_in(old(self), now, x) implies q_has(
                            self.expirations_view(),
                            x,
                        ) == q_has(old(self).expirations_view(), x) && (q_has(
                            old(self).expirations_view(),
                            x,
                        ) ==> q_time_of(self.expirations_view(), x) == q_time_of(
                            old(self).expirations_view(),
                            x,
                        )) by {
                            Self::lemma_suffix_membership(
                                e0,
                                k,
                                self.expirations_view(),
                                now,
                                x,
                            );
                            if q_has(old(self).expirations_view(), x) {
                                let w = crate::queue::q_index_of(e0, x);
                                crate::queue::lemma_q_entry_at(e0, w);
                            }
                        }
                    }
                return ;
            }
            let ghost pre = *self;
            let head = self.expirations.pop_due(now);
            match head {
                None => {
                    proof {
                        assert(false);
                    }
                    return ;
                },
                Some((_t, id)) => {
                    proof {
                        assert(pre.expirations_view()[0] == e0[k]);
                        assert(q_has(pre.expirations_view(), id@)) by {
                            assert(pre.expirations_view()[0].1 == id@);
                        }
                        assert(m_has(pre.registrations_view(), id@));
                        assert(!(m_get(pre.registrations_view(), id@).state is Available));
                        crate::queue::lemma_q_entry_at(e0, k);
                    }
                    let reg_name: String = match self.registrations.get(&id) {
                        Some(reg) => reg.name.clone(),
                        None => {
                            // Expiration entries only ever point at stored
                            // registrations, so this lookup cannot miss.
                            proof {
                                assert(false);
                            }
                            String::new()
                        },
                    };
                    self.names.remove(&reg_name);
                    self.registrations.remove(&id);
                    self.tasks.remove_by_key(&id);
                    self.retries.remove_by_key(&id);
                    proof {
                        self.lemma_expire_step_wf(&pre, id@, reg_name@);
                        assert(self.expirations_view() =~= e0.skip(k + 1)) by {
                            assert(pre.expirations_view() == e0.skip(k));
                            assert(e0.skip(k).remove(0) =~= e0.skip(k + 1));
                        }
                        let ghost kk = k + 1;
                        assert forall|x: Seq<char>|
                            q_has(e0.take(kk), x) implies x == id@ || q_has(e0.take(k), x) by {
                            let w = choose|i: int| 0 <= i < kk && #[trigger] e0.take(kk)[i].1 == x;
                            if w < k {
                                assert(e0.take(k)[w] == e0[w]);
                            } else {
                                assert(e0.take(kk)[w] == e0[k]);
                            }
                        }
                        assert forall|x: Seq<char>|
                            q_has(e0.take(k), x) || x == id@ implies #[trigger] q_has(
                            e0.take(kk),
                            x,
                        ) by {
                            if x == id@ {
                                assert(e0.take(kk)[k] == e0[k]);
                            } else {
                                let w = choose|i: int|
                                    0 <= i < k && #[trigger] e0.take(k)[i].1 == x;
                                assert(e0.take(kk)[w] == e0[w]);
                            }
                        }
                        assert(reg_name@ == m_get(pre.registrations_view(), id@).name@);
                        assert(m_has(pre.names_view(), reg_name@) && m_get(
                            pre.names_view(),
                            reg_name@,
                        )@ == id@);
                        assert forall|n: Seq<char>| #[trigger] m_has(self.names_view(), n) <==> (
                        m_has(old(self).names_view(), n) && !q_has(
                            e0.take(kk),
                            m_get(old(self).names_view(), n)@,
                        )) by {
                            if m_has(self.names_view(), n) {
                                assert(n != reg_name@);
                                assert(m_has(pre.names_view(), n));
                                assert(m_has(old(self).names_view(), n));
                                let v = m_get(old(self).names_view(), n);
                                assert(m_get(pre.names_view(), n) == v);
                                assert(m_has(pre.registrations_view(), v@) && m_get(
                                    pre.registrations_view(),
                                    v@,
                                ).name@ == n);
                                assert(v@ != id@);
                                assert(!q_has(e0.take(k), v@));
                            }
                            if m_has(old(self).names_view(), n) && !q_has(
                                e0.take(kk),
                                m_get(old(self).names_view(), n)@,
                            ) {
                                let v = m_get(old(self).names_view(), n);
                                assert(q_has(e0.take(kk), id@));
                                assert(v@ != id@);
                                assert(!q_has(e0.take(k), v@));
                                assert(m_has(pre.names_view(), n) && m_get(pre.names_view(), n)
                                    == v);
                                assert(n != reg_name@);
                                assert(m_has(self.names_view(), n));
                            }
                        }
                        assert forall|n: Seq<char>| #[trigger] m_has(self.names_view(), n) implies
                            m_get(self.names_view(), n) == m_get(old(self).names_view(), n) by {
                            assert(n != reg_name@);
                            assert(m_get(self.names_view(), n) == m_get(pre.names_view(), n));
                        }
                        assert forall|x: Seq<char>|
                            #[trigger] m_has(self.registrations_view(), x) <==> (m_has(
                            old(self).registrations_view(),
                            x,
                        ) && !q_has(e0.take(kk), x)) by {
                            if m_has(self.registrations_view(), x) {
                                assert(x != id@);
                                assert(m_has(pre.registrations_view(), x));
                                assert(!q_has(e0.take(k), x));
                            }
                            if m_has(old(self).registrations_view(), x) && !q_has(e0.take(kk), x) {
                                assert(q_has(e0.take(kk), id@));
                                assert(x != id@);
                                assert(!q_has(e0.take(k), x));
                                assert(m_has(pre.registrations_view(), x));
                            }
                        }
                        assert forall|x: Seq<char>|
                            !q_has(e0.take(kk), x) implies q_has(self.tasks_view(), x) == q_has(
                            old(self).tasks_view(),
                            x,
                        ) && (q_has(old(self).tasks_view(), x) ==> q_time_of(self.tasks_view(), x)
                            == q_time_of(old(self).tasks_view(), x)) by {
                            assert(q_has(e0.take(kk), id@));
                            assert(x != id@);
                            assert(!q_has(e0.take(k), x));
                        }
                        assert forall|x: Seq<char>|
                            !q_has(e0.take(kk), x) implies q_has(self.retries_view(), x) == q_has(
                            old(self).retries_view(),
                            x,
                        ) && (q_has(old(self).retries_view(), x) ==> q_time_of(
                            self.retries_view(),
                            x,
                        ) == q_time_of(old(self).retries_view(), x)) by {
                            assert(q_has(e0.take(kk), id@));
                            assert(x != id@);
                            assert(!q_has(e0.take(k), x));
                        }
                        assert forall|x: Seq<char>| #[trigger] q_has(e0.take(kk), x) implies !q_has(
                            self.tasks_view(),
                            x,
                        ) && !q_has(self.retries_view(), x) && !q_has(
                            self.expirations_view(),
                            x,
                        ) by {
                            if x == id@ {
                                assert(!q_has(self.expirations_view(), id@)) by {
                                    if q_has(e0.skip(kk), id@) {
                                        let w = choose|i: int|
                                            0 <= i < e0.skip(kk).len() && #[trigger] e0.skip(kk)[i].1
                                                == id@;
                                        assert(e0.skip(kk)[w] == e0[w + kk]);
                                        assert(e0[w + kk].1 != e0[k].1);
                                    }
                                }
                            } else {
                                assert(q_has(e0.take(k), x));
                            }
                        }
                        k = k + 1;
                        assert(forall|i: int| 0 <= i < k ==> e0[i].0 <= now);
                    }
                },
            }
        }
    }

    /// Re-establishes the invariant after one reap: the registration under
    /// `id`, its name's index entry, and all of `id`'s queue entries are
    /// gone; everything else kept its place.
    proof fn lemma_expire_step_wf(&self, pre: &Orchestrator, id: Seq<char>, nm: Seq<char>)
        requires
            pre.wf(),
            self.registrations.wf(),
            self.names.wf(),
            self.certificates == pre.certificates,
            self.root_principals == pre.root_principals,
            self.allowed_principals == pre.allowed_principals,
            self.id_seed == pre.id_seed,
            self.id_counter == pre.id_counter,
            self.tasks.wf(),
            self.retries.wf(),
            self.expirations.wf(),
            m_has(pre.registrations_view(), id),
            !(m_get(pre.registrations_view(), id).state is Available),
            nm == m_get(pre.registrations_view(), id).name@,
            !m_has(self.registrations_view(), id),
            forall|x: Seq<char>|
                x != id ==> m_has(self.registrations_view(), x) == m_has(
                    pre.registrations_view(),
                    x,
                ) && (m_has(pre.registrations_view(), x) ==> m_get(self.registrations_view(), x)
                    == m_get(pre.registrations_view(), x)),
            !m_has(self.names_view(), nm),
            forall|n: Seq<char>|
                n != nm ==> m_has(self.names_view(), n) == m_has(pre.names_view(), n) && (m_has(
                    pre.names_view(),
                    n,
                ) ==> m_get(self.names_view(), n) == m_get(pre.names_view(), n)),
            !q_has(self.tasks_view(), id),
            !q_has(self.retries_view(), id),
            !q_has(self.expirations_view(), id),
            forall|x: Seq<char>|
                x != id ==> q_has(self.tasks_view(), x) == q_has(pre.tasks_view(), x),
            forall|x: Seq<char>|
                x != id ==> q_has(self.retries_view(), x) == q_has(pre.retries_view(), x),
            forall|x: Seq<char>|
                x != id ==> q_has(self.expirations_view(), x) == q_has(pre.expirations_view(), x),
        ensures
            self.wf(),
    {
        let regs0 = pre.registrations_view();
        let regs2 = self.registrations_view();
        let names0 = pre.names_view();
        let names2 = self.names_view();
        assert(m_has(names0, nm) && m_get(names0, nm)@ == id);
        assert(names_sound(regs2, names2)) by {
            assert forall|n: Seq<char>| #[trigger] m_has(names2, n) implies m_has(
                regs2,
                m_get(names2, n)@,
            ) && m_get(regs2, m_get(names2, n)@).name@ == n by {
                assert(n != nm);
                assert(m_has(names0, n));
                let v = m_get(names0, n);
                assert(m_has(regs0, v@) && m_get(regs0, v@).name@ == n);
                assert(v@ != id);
            }
        }
        assert(names_complete(regs2, names2)) by {
            assert forall|x: Seq<char>|
                #[trigger] m_has(regs2, x) && !(m_get(regs2, x).state is Available) implies m_has(
                names2,
                m_get(regs2, x).name@,
            ) && m_get(names2, m_get(regs2, x).name@)@ == x by {
                assert(x != id);
                assert(m_has(regs0, x) && m_get(regs2, x) == m_get(regs0, x));
                let xn = m_get(regs0, x).name@;
                assert(m_has(names0, xn) && m_get(names0, xn)@ == x);
                assert(xn != nm);
            }
        }
        assert(queues_consistent(
            regs2,
            self.tasks_view(),
            self.retries_view(),
            self.expirations_view(),
        )) by {
            assert forall|x: Seq<char>| #[trigger] m_has(regs2, x) implies state_queues_ok(
                m_get(regs2, x).state,
                q_has(self.tasks_view(), x),
                q_has(self.retries_view(), x),
                q_has(self.expirations_view(), x),
            ) by {
                assert(x != id);
                assert(m_has(regs0, x) && m_get(regs2, x) == m_get(regs0, x));
            }
        }
        assert(queue_covered(regs2, self.tasks_view())) by {
            assert forall|x: Seq<char>| #[trigger] q_has(self.tasks_view(), x) implies m_has(
                regs2,
                x,
            ) by {
                assert(x != id);
                assert(q_has(pre.tasks_view(), x));
            }
        }
        assert(queue_covered(regs2, self.retries_view())) by {
            assert forall|x: Seq<char>| #[trigger] q_has(self.retries_view(), x) implies m_has(
                regs2,
                x,
            ) by {
                assert(x != id);
                assert(q_has(pre.retries_view(), x));
            }
        }
        assert(queue_covered(regs2, self.expirations_view())) by {
            assert forall|x: Seq<char>| #[trigger] q_has(self.expirations_view(), x) implies m_has(
                regs2,
                x,
            ) by {
                assert(x != id);
                assert(q_has(pre.expirations_view(), x));
            }
        }
        assert(fresh_ids(regs2, self.id_seed, self.id_counter)) by {
            assert forall|x: Seq<char>| #[trigger] m_has(regs2, x) implies m_has(regs0, x) by {
                assert(x != id);
            }
            lemma_fresh_ids_preserved(regs0, regs2, pre.id_seed, pre.id_counter, pre.id_counter);
        }
    }

    /// Exports every issued certificate: for each `Available` registration
    /// holding a stored pair, its name, identifier and pair, in the
    /// registration store's insertion order.
    pub fn export_certificates(&self, caller: &String) -> (r: Result<
        Vec<ExportPackage>,
        ExportError,
    >)
        requires
            self.wf(),
        ensures
            !self.is_allowed(caller@) ==> r == Result::<Vec<ExportPackage>, ExportError>::Err(
                ExportError::Unauthorized,
            ),
            self.is_allowed(caller@) ==> (r matches Ok(v) && v@.map_values(
                |p: ExportPackage| pkg_view(p),
            ) == export_of(self.registrations_view(), self.certificates_view())),
    {
        if let Err(_) = authorize(caller, &self.allowed_principals) {
            return Err(ExportError::Unauthorized);
        }
        let ghost regs = self.registrations_view();
        let ghost certs = self.certificates_view();
        let n = self.registrations.len();
        let mut out: Vec<ExportPackage> = Vec::new();
        let mut i: usize = 0;
        proof {
            assert(regs.take(0) =~= Seq::<(String, Registration)>::empty());
            assert(out@.map_values(|p: ExportPackage| pkg_view(p)) =~= export_of(
                regs.take(0),
                certs,
            ));
        }
        while i < n
            invariant
                i <= n,
                n == regs.len(),
                regs == self.registrations_view(),
                certs == self.certificates_view(),
                self.wf(),
                out@.map_values(|p: ExportPackage| pkg_view(p)) == export_of(regs.take(i as int), certs),
            decreases n - i,
        {
            let ghost prefix = out@;
            let id = self.registrations.key_at(i);
            let reg = self.registrations.value_at(i);
            let is_avail = match reg.state {
                State::Available => true,
                _ => false,
            };
            if is_avail {
                match self.certificates.get(id) {
                    Some(pair) => {
                        let pkg = ExportPackage {
                            name: reg.name.clone(),
                            id: id.clone(),
                            pair: pair.duplicate(),
                        };
                        out.push(pkg);
                    },
                    None => {},
                }
            }
            proof {
                let e = regs[i as int];
                assert(regs.take(i as int + 1).drop_last() =~= regs.take(i as int));
                assert(regs.take(i as int + 1).last() == e);
                if e.1.state is Available && m_has(certs, e.0@) {
                    assert(out@ == prefix.push(
                        ExportPackage {
                            name: e.1.name,
                            id: e.0,
                            pair: m_get(certs, e.0@),
                        },
                    ) || out@.map_values(|p: ExportPackage| pkg_view(p)) == prefix.map_values(
                        |p: ExportPackage| pkg_view(p),
                    ).push((e.1.name@, e.0@, m_get(certs, e.0@).0@, m_get(certs, e.0@).1@)));
                    assert(out@.map_values(|p: ExportPackage| pkg_view(p)) =~= prefix.map_values(
                        |p: ExportPackage| pkg_view(p),
                    ).push((e.1.name@, e.0@, m_get(certs, e.0@).0@, m_get(certs, e.0@).1@)));
                    assert(export_of(regs.take(i as int + 1), certs) == export_of(
                        regs.take(i as int),
                        certs,
                    ) + seq![(e.1.name@, e.0@, m_get(certs, e.0@).0@, m_get(certs, e.0@).1@)]);
                    assert(out@.map_values(|p: ExportPackage| pkg_view(p)) =~= export_of(
                        regs.take(i as int + 1),
                        certs,
                    ));
                } else {
                    assert(out@ == prefix);
                    assert(export_of(regs.take(i as int + 1), certs) == export_of(
                        regs.take(i as int),
                        certs,
                    ));
                }
            }
            i = i + 1;
        }
        proof {
            assert(regs.take(n as int) =~= regs);
        }
        Ok(out)
    }

    /// The three buffers are this engine's own queue snapshots.
    pub open spec fn own_snapshots(
        pre: &Orchestrator,
        tasks_bytes: Seq<u8>,
        expirations_bytes: Seq<u8>,
        retries_bytes: Seq<u8>,
    ) -> bool {
        &&& snapshot_of(pre.tasks_view(), tasks_bytes)
        &&& snapshot_of(pre.expirations_view(), expirations_bytes)
        &&& snapshot_of(pre.retries_view(), retries_bytes)
    }

    /// Serializes the three queues for an upgrade: tasks, expirations,
    /// retries, each as one byte buffer.
    pub fn pre_upgrade(&self) -> (r: (Vec<u8>, Vec<u8>, Vec<u8>))
        requires
            self.wf(),
        ensures
            r.0@ == enc_queue(self.tasks_view()),
            r.1@ == enc_queue(self.expirations_view()),
            r.2@ == enc_queue(self.retries_view()),
            snapshot_fits(self.tasks_view()),
            snapshot_fits(self.expirations_view()),
            snapshot_fits(self.retries_view()),
            Self::own_snapshots(self, r.0@, r.1@, r.2@),
    {
        (encode_queue(&self.tasks), encode_queue(&self.expirations), encode_queue(&self.retries))
    }

    /// Restores the three queues from their upgrade snapshots.  The engine
    /// accepts the snapshots only if they decode to well-formed queues that
    /// are consistent with the registration store; on refusal (`false`)
    /// nothing changes, and the process should stop rather than serve.  An
    /// accepted restore re-encodes to the given buffers exactly, so by the
    /// codec's injectivity it holds the snapshotted entries in their order.
    pub fn post_upgrade(
        &mut self,
        tasks_bytes: &Vec<u8>,
        expirations_bytes: &Vec<u8>,
        retries_bytes: &Vec<u8>,
    ) -> (r: bool)
        requires
            old(self).wf(),
        ensures
            final(self).wf(),
            !r ==> *final(self) == *old(self),
            r ==> Self::same_stores(old(self), final(self)) && Self::same_acls(
                old(self),
                final(self),
            ) && Self::same_id_generator(old(self), final(self)) && enc_queue(
                final(self).tasks_view(),
            ) == tasks_bytes@ && enc_queue(final(self).expirations_view()) == expirations_bytes@
                && enc_queue(final(self).retries_view()) == retries_bytes@,
            Self::own_snapshots(old(self), tasks_bytes@, expirations_bytes@, retries_bytes@) ==> (r
                == true && final(self).tasks_view() == old(self).tasks_view()
                && final(self).expirations_view() == old(self).expirations_view()
                && final(self).retries_view() == old(self).retries_view()),
    {
        let ghost hyp = Self::own_snapshots(
            old(self),
            tasks_bytes@,
            expirations_bytes@,
            retries_bytes@,
        );
        let t = match decode_queue(tasks_bytes) {
            Some(q) => q,
            None => {
                proof {
                    if hyp {
                        assert(exists|v: Seq<(u64, Seq<char>)>| snapshot_of(v, tasks_bytes@));
                    }
                }
                return false;
            },
        };
        let e = match decode_queue(expirations_bytes) {
            Some(q) => q,
            None => {
                proof {
                    if hyp {
                        assert(exists|v: Seq<(u64, Seq<char>)>| snapshot_of(v, expirations_bytes@));
                    }
                }
                return false;
            },
        };
        let rq = match decode_queue(retries_bytes) {
            Some(q) => q,
            None => {
                proof {
                    if hyp {
                        assert(exists|v: Seq<(u64, Seq<char>)>| snapshot_of(v, retries_bytes@));
                    }
                }
                return false;
            },
        };
        proof {
            if hyp {
                crate::codec::lemma_snapshot_roundtrip(old(self).tasks_view(), t@);
                crate::codec::lemma_snapshot_roundtrip(old(self).expirations_view(), e@);
                crate::codec::lemma_snapshot_roundtrip(old(self).retries_view(), rq@);
            }
        }
        let ghost regs = self.registrations_view();
        let n = self.registrations.len();
        let mut i: usize = 0;
        while i < n
            invariant
                i <= n,
                n == regs.len(),
                regs == self.registrations_view(),
                self.wf(),
                self.tasks_view() == old(self).tasks_view(),
                self.retries_view() == old(self).retries_view(),
                self.expirations_view() == old(self).expirations_view(),
                hyp == Self::own_snapshots(
                    old(self),
                    tasks_bytes@,
                    expirations_bytes@,
                    retries_bytes@,
                ),
                hyp ==> t@ == old(self).tasks_view() && rq@ == old(self).retries_view() && e@
                    == old(self).expirations_view(),
                forall|j: int|
                    0 <= j < i ==> state_queues_ok(
                        #[trigger] regs[j].1.state,
                        q_has(t@, regs[j].0@),
                        q_has(rq@, regs[j].0@),
                        q_has(e@, regs[j].0@),
                    ),
            decreases n - i,
        {
            let id = self.registrations.key_at(i);
            let reg = self.registrations.value_at(i);
            let in_t = t.contains_key(id);
            let in_r = rq.contains_key(id);
            let in_e = e.contains_key(id);
            let ok = match reg.state {
                State::Available => !in_t && !in_r && !in_e,
                _ => (in_t != in_r) && in_e,
            };
            if !ok {
                proof {
                    if hyp {
                        crate::store::lemma_m_entry_at(regs, i as int);
                        assert(false);
                    }
                }
                return false;
            }
            i = i + 1;
        }
        if !self.queue_targets_stored(&t) {
            proof {
                if hyp {
                    assert(false);
                }
            }
            return false;
        }
        if !self.queue_targets_stored(&rq) {
            proof {
                if hyp {
                    assert(false);
                }
            }
            return false;
        }
        if !self.queue_targets_stored(&e) {
            proof {
                if hyp {
                    assert(false);
                }
            }
            return false;
        }
        let ghost pre = *self;
        self.tasks = t;
        self.retries = rq;
        self.expirations = e;
        proof {
            let regs2 = self.registrations_view();
            assert(queues_consistent(
                regs2,
                self.tasks_view(),
                self.retries_view(),
                self.expirations_view(),
            )) by {
                assert forall|x: Seq<char>| #[trigger] m_has(regs2, x) implies state_queues_ok(
                    m_get(regs2, x).state,
                    q_has(self.tasks_view(), x),
                    q_has(self.retries_view(), x),
                    q_has(self.expirations_view(), x),
                ) by {
                    let w = crate::store::m_index_of(regs2, x);
                    crate::store::lemma_m_entry_at(regs2, w);
                }
            }
        }
        true
    }

    /// Every key in the queue is a stored registration's identifier.
    fn queue_targets_stored(&self, q: &TimeQueue) -> (r: bool)
        requires
            self.wf(),
        ensures
            r == queue_covered(self.registrations_view(), q@),
    {
        let m = q.len();
        let mut j: usize = 0;
        while j < m
            invariant
                j <= m,
                m == q@.len(),
                self.wf(),
                forall|l: int| 0 <= l < j ==> m_has(self.registrations_view(), #[trigger] q@[l].1),
            decreases m - j,
        {
            let (_t, id) = q.get(j);
            if !self.registrations.contains_key(&id) {
                proof {
                    assert(q_has(q@, q@[j as int].1)) by {
                        assert(q@[j as int].1 == q@[j as int].1);
                    }
                    assert(!queue_covered(self.registrations_view(), q@));
                }
                return false;
            }
            j = j + 1;
        }
        proof {
            assert forall|x: Seq<char>| #[trigger] q_has(q@, x) implies m_has(
                self.registrations_view(),
                x,
            ) by {
                let w = choose|l: int| 0 <= l < q@.len() && #[trigger] q@[l].1 == x;
                assert(m_has(self.registrations_view(), q@[w].1));
            }
        }
        true
    }

    /// Lists the allowed principals, in insertion order.
    pub fn list_allowed_principals(&self, caller: &String) -> (r: Result<
        Vec<String>,
        ListAllowedPrincipalsError,
    >)
        requires
            self.wf(),
        ensures
            !self.is_root(caller@) ==> r == Result::<Vec<String>, ListAllowedPrincipalsError>::Err(
                ListAllowedPrincipalsError::Unauthorized,
            ),
            self.is_root(caller@) ==> (r matches Ok(v) && v@.len() == self.allowed_view().len()
                && forall|i: int|
                0 <= i < v@.len() ==> #[trigger] v@[i]@ == self.allowed_view()[i].0@),
    {
        if let Err(_) = authorize(caller, &self.root_principals) {
            return Err(ListAllowedPrincipalsError::Unauthorized);
        }
        let n = self.allowed_principals.len();
        let mut out: Vec<String> = Vec::new();
        let mut i: usize = 0;
        while i < n
            invariant
                i <= n,
                n == self.allowed_view().len(),
                out@.len() == i,
                forall|j: int| 0 <= j < i ==> #[trigger] out@[j]@ == self.allowed_view()[j].0@,
            decreases n - i,
        {
            out.push(self.allowed_principals.key_at(i).clone());
            i = i + 1;
        }
        Ok(out)
    }

    /// Adds a principal to the allowlist.
    pub fn add_allowed_principal(&mut self, caller: &String, principal: String) -> (r: Result<
        (),
        ModifyAllowedPrincipalError,
    >)
        requires
            old(self).wf(),
        ensures
            final(self).wf(),
            !old(self).is_root(caller@) ==> r == Result::<(), ModifyAllowedPrincipalError>::Err(
                ModifyAllowedPrincipalError::Unauthorized,
            ) && *final(self) == *old(self),
            old(self).is_root(caller@) ==> r == Result::<(), ModifyAllowedPrincipalError>::Ok(())
                && final(self).is_allowed(principal@) && (forall|p: Seq<char>|
                p != principal@ ==> final(self).is_allowed(p) == old(self).is_allowed(p))
                && final(self).roots_view() == old(self).roots_view() && Self::same_stores(
                old(self),
                final(self),
            ) && Self::same_queues(old(self), final(self)) && Self::same_id_generator(
                old(self),
                final(self),
            ),
    {
        if let Err(_) = authorize(caller, &self.root_principals) {
            return Err(ModifyAllowedPrincipalError::Unauthorized);
        }
        self.allowed_principals.insert(principal, ());
        Ok(())
    }

    /// Removes a principal from the allowlist.
    pub fn rm_allowed_principal(&mut self, caller: &String, principal: &String) -> (r: Result<
        (),
        ModifyAllowedPrincipalError,
    >)
        requires
            old(self).wf(),
        ensures
            final(self).wf(),
            !old(self).is_root(caller@) ==> r == Result::<(), ModifyAllowedPrincipalError>::Err(
                ModifyAllowedPrincipalError::Unauthorized,
            ) && *final(self) == *old(self),
            old(self).is_root(caller@) ==> r == Result::<(), ModifyAllowedPrincipalError>::Ok(())
                && !final(self).is_allowed(principal@) && (forall|p: Seq<char>|
                p != principal@ ==> final(self).is_allowed(p) == old(self).is_allowed(p))
                && final(self).roots_view() == old(self).roots_view() && Self::same_stores(
                old(self),
                final(self),
            ) && Self::same_queues(old(self), final(self)) && Self::same_id_generator(
                old(self),
                final(self),
            ),
    {
        if let Err(_) = authorize(caller, &self.root_principals) {
            return Err(ModifyAllowedPrincipalError::Unauthorized);
        }
        self.allowed_principals.remove(principal);
        Ok(())
    }
}

} // verus!
