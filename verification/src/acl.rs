//! Access control: persistent sets of principals and the authorization
//! guard every business operation runs first.
//!
//! Two sets exist: the root principals, who may edit the main allowlist,
//! and the allowed principals, who may invoke business operations.

use vstd::prelude::*;

use crate::store::AssocMap;

verus! {

/// Why an authorization was refused.
#[derive(Debug, PartialEq, Eq)]
pub enum AuthorizeError {
    Unauthorized,
}

/// A set of principals, kept as a map with unit values.
pub type PrincipalSet = AssocMap<()>;

/// Grants exactly the callers in the set.
pub fn authorize(caller: &String, set: &PrincipalSet) -> (r: Result<(), AuthorizeError>)
    requires
        set.wf(),
    ensures
        r is Ok <==> set.spec_has(caller@),
        r is Err ==> r == Result::<(), AuthorizeError>::Err(AuthorizeError::Unauthorized),
{
    if set.contains_key(caller) {
        Ok(())
    } else {
        Err(AuthorizeError::Unauthorized)
    }
}

} // verus!
