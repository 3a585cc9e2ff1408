//! Registry-side package metadata.  Only the core-facing pieces live here;
//! the JSON shapes of the registry façade stay with the server binary.

use vstd::prelude::*;

use crate::errors::ObjectStoreError;

verus! {

/// A person attached to a package: a name and an email address.
#[derive(Debug, Clone, PartialEq, Eq)]
pub struct PackageHuman {
    pub name: Vec<u8>,
    pub email: Vec<u8>,
}

/// A store of account credentials, implemented by the registry front end.
pub trait AuthorityStore {
    fn check_password(&self, username: &Vec<u8>, password: &Vec<u8>) -> Result<
        bool,
        ObjectStoreError,
    >;

    fn signup(&self, username: &Vec<u8>, password: &Vec<u8>, email: &Vec<u8>) -> Result<
        PackageHuman,
        ObjectStoreError,
    >;
}

} // verus!
