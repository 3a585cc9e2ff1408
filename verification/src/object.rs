//! The record-level view of a stored object: the same three variants as an
//! envelope, as a pack record carries them.

use vstd::prelude::*;

use crate::envelope::{EnvKind, EnvModel};

verus! {

#[derive(Debug, Clone, PartialEq, Eq)]
pub enum Object {
    Blob(Vec<u8>),
    Version(Vec<u8>),
    Event(Vec<u8>),
}

impl View for Object {
    type V = EnvModel;

    open spec fn view(&self) -> EnvModel {
        match self {
            Object::Blob(v) => EnvModel { kind: EnvKind::Blob, payload: v@ },
            Object::Version(v) => EnvModel { kind: EnvKind::Version, payload: v@ },
            Object::Event(v) => EnvModel { kind: EnvKind::Event, payload: v@ },
        }
    }
}

impl Object {
    /// The raw payload bytes.
    pub fn bytes(&self) -> (r: &Vec<u8>)
        ensures
            r@ == self@.payload,
    {
        match self {
            Object::Blob(x) => x,
            Object::Version(x) => x,
            Object::Event(x) => x,
        }
    }
}

} // verus!
