//! Registrations: the durable record of a single domain-name enrollment,
//! its lifecycle state, and the encrypted certificate material attached to
//! it once issuance succeeds.

use vstd::prelude::*;
use vstd::string::StrSliceExecFns;

verus! {

/// Longest accepted domain name, in characters.
pub const NAME_MAX_LEN: usize = 64;

/// Characters a domain name may hold: ASCII letters, digits, hyphens, and
/// the label separator.
pub open spec fn is_name_char(c: char) -> bool {
    ||| ('a' as u32) <= (c as u32) && (c as u32) <= ('z' as u32)
    ||| ('A' as u32) <= (c as u32) && (c as u32) <= ('Z' as u32)
    ||| ('0' as u32) <= (c as u32) && (c as u32) <= ('9' as u32)
    ||| c == '-'
    ||| c == '.'
}

/// Domain-name rules for a registration's name: at least two labels
/// separated by single dots, only letters, digits and hyphens inside a
/// label, no label empty, none starting or ending with a hyphen, and the
/// whole name within [`NAME_MAX_LEN`].  The total bound keeps every label
/// well under the 63-octet label limit.
pub open spec fn valid_name(n: Seq<char>) -> bool {
    &&& 1 <= n.len() <= NAME_MAX_LEN
    &&& (forall|i: int| 0 <= i < n.len() ==> is_name_char(#[trigger] n[i]))
    &&& (exists|i: int| 0 <= i < n.len() && n[i] == '.')
    &&& n[0] != '.' && n[0] != '-'
    &&& n[n.len() - 1] != '.' && n[n.len() - 1] != '-'
    &&& (forall|i: int| 1 <= i < n.len() ==> !(n[i - 1] == '.' && #[trigger] n[i] == '.'))
    &&& (forall|i: int| 1 <= i < n.len() ==> !(n[i - 1] == '-' && #[trigger] n[i] == '.'))
    &&& (forall|i: int| 1 <= i < n.len() ==> !(n[i - 1] == '.' && #[trigger] n[i] == '-'))
}

/// Executable check for [`is_name_char`].
fn name_char(c: char) -> (r: bool)
    ensures
        r == is_name_char(c),
{
    let u = c as u32;
    (('a' as u32) <= u && u <= ('z' as u32)) || (('A' as u32) <= u && u <= ('Z' as u32)) || (('0'
        as u32) <= u && u <= ('9' as u32)) || u == ('-' as u32) || u == ('.' as u32)
}

/// Executable check for [`valid_name`].
pub fn check_name(name: &str) -> (r: bool)
    ensures
        r == valid_name(name@),
{
    let len = name.unicode_len();
    if len < 1 || len > NAME_MAX_LEN {
        return false;
    }
    let c0 = name.get_char(0);
    let cl = name.get_char(len - 1);
    if c0 == '.' || c0 == '-' || cl == '.' || cl == '-' {
        return false;
    }
    let mut seen_dot = false;
    let mut i: usize = 0;
    while i < len
        invariant
            i <= len,
            len == name@.len(),
            forall|k: int| 0 <= k < i ==> is_name_char(#[trigger] name@[k]),
            seen_dot == exists|k: int| 0 <= k < i && name@[k] == '.',
            forall|k: int| 1 <= k < i ==> !(name@[k - 1] == '.' && #[trigger] name@[k] == '.'),
            forall|k: int| 1 <= k < i ==> !(name@[k - 1] == '-' && #[trigger] name@[k] == '.'),
            forall|k: int| 1 <= k < i ==> !(name@[k - 1] == '.' && #[trigger] name@[k] == '-'),
        decreases len - i,
    {
        let c = name.get_char(i);
        if !name_char(c) {
            return false;
        }
        if i > 0 {
            let p = name.get_char(i - 1);
            if (p == '.' && c == '.') || (p == '-' && c == '.') || (p == '.' && c == '-') {
                return false;
            }
        }
        if c == '.' {
            seen_dot = true;
        }
        i = i + 1;
    }
    seen_dot
}

/// Lifecycle state of a registration.
///
/// The intended progression is `PendingOrder` to `PendingChallengeResponse`
/// to `PendingAcmeApproval` to `Available`; any phase error moves the
/// registration to `Failed` with a reason, from which the pipeline retries
/// the order phase.
#[derive(Debug, PartialEq, Eq, Clone)]
pub enum State {
    PendingOrder,
    PendingChallengeResponse,
    PendingAcmeApproval,
    Available,
    Failed(String),
}

impl State {
    /// An exact copy whose equality Verus can see.
    pub fn duplicate(&self) -> (r: State)
        ensures
            r == *self,
    {
        match self {
            State::PendingOrder => State::PendingOrder,
            State::PendingChallengeResponse => State::PendingChallengeResponse,
            State::PendingAcmeApproval => State::PendingAcmeApproval,
            State::Available => State::Available,
            State::Failed(reason) => State::Failed(reason.clone()),
        }
    }
}

/// The record kept for one enrolled domain name.  The registration's
/// identifier is the key under which the record is stored and is not
/// repeated inside it.
#[derive(Debug, PartialEq, Eq, Clone)]
pub struct Registration {
    /// The enrolled DNS name.
    pub name: String,
    /// The principal that owns this registration, in textual form.
    pub canister: String,
    /// Current lifecycle state.
    pub state: State,
    /// Nanosecond timestamp of creation; never mutated afterwards.
    pub created_at: u64,
}

impl Registration {
    /// An exact copy whose equality Verus can see.
    pub fn duplicate(&self) -> (r: Registration)
        ensures
            r == *self,
    {
        Registration {
            name: self.name.clone(),
            canister: self.canister.clone(),
            state: self.state.duplicate(),
            created_at: self.created_at,
        }
    }
}

/// Encrypted key material for one registration: the private key and the
/// certificate chain, both opaque ciphertext to the orchestrator.
#[derive(Debug, PartialEq, Eq, Clone)]
pub struct EncryptedPair(pub Vec<u8>, pub Vec<u8>);

impl EncryptedPair {
    /// An exact copy whose equality Verus can see.
    pub fn duplicate(&self) -> (r: EncryptedPair)
        ensures
            r.0@ == self.0@,
            r.1@ == self.1@,
    {
        EncryptedPair(
            vstd::slice::slice_to_vec(self.0.as_slice()),
            vstd::slice::slice_to_vec(self.1.as_slice()),
        )
    }
}

} // verus!
