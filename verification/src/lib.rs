//! A verified certificate orchestration engine.
//!
//! The engine owns the durable registry of domain-name registrations and
//! drives each one through the ACME protocol by way of a work queue that
//! external worker processes poll.  The library holds the verified core:
//! the registration store and its invariants, the keyed time queues, the
//! identifier generator, the access-control lists, the snapshot codec used
//! across upgrades, and the worker-side decision logic.  All platform work
//! (RPC transport, timers, actual ACME and DNS calls) stays outside and
//! feeds the library plain values.

pub mod acl;
pub mod codec;
pub mod id;
pub mod orchestrator;
pub mod ordering;
pub mod queue;
pub mod registration;
pub mod store;
pub mod work;
