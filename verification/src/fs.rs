//! The random oracle of the Fiat-Shamir transform.

use vstd::prelude::*;

use crate::crypto::derived_key;
use crate::crypto::kdf;
use crate::crypto::PRG;

verus! {

/// What has been sent to the oracle.
pub struct Oracle {
    messages: Vec<u8>,
}

/// A message to the oracle in the making.
pub struct Scope {
    label: &'static str,
    message: Vec<u8>,
}

impl Scope {
    /// The label of the message.
    pub closed spec fn label(self) -> Seq<char> {
        self.label@
    }

    /// The bytes of the message so far.
    pub closed spec fn message(self) -> Seq<u8> {
        self.message@
    }

    /// Appends bytes to the message.
    pub fn update(&mut self, bytes: &[u8])
        ensures
            final(self).label() == old(self).label(),
            final(self).message() == old(self).message() + bytes@,
    {
        self.message.extend_from_slice(bytes);
    }

    /// Appends a hash to the message.
    pub fn join(&mut self, hash: &crate::crypto::Hash)
        ensures
            final(self).label() == old(self).label(),
            final(self).message() == old(self).message() + hash.bytes@,
    {
        self.update(hash.as_bytes().as_slice());
    }
}

impl Oracle {
    /// The bytes that the oracle has absorbed: for every message that was
    /// closed, the key that is derived from it under its label.
    pub closed spec fn absorbed(self) -> Seq<u8> {
        self.messages@
    }

    /// The generator with which the oracle responds under a label.
    pub open spec fn response(self, label: Seq<char>) -> PRG {
        PRG::from_key(derived_key(label, self.absorbed()))
    }

    /// An oracle to which nothing has been sent.
    pub fn new() -> (oracle: Oracle)
        ensures
            oracle.absorbed() == Seq::<u8>::empty(),
    {
        Oracle { messages: Vec::new() }
    }

    /// Starts a message.
    pub fn scope(&self, label: &'static str) -> (scope: Scope)
        ensures
            scope.label() == label@,
            scope.message() == Seq::<u8>::empty(),
    {
        Scope { label, message: Vec::new() }
    }

    /// Sends a message.
    pub fn close(&mut self, scope: Scope)
        ensures
            final(self).absorbed() == old(self).absorbed() + derived_key(
                scope.label(),
                scope.message(),
            )@,
    {
        let bound = kdf(scope.label, scope.message.as_slice());
        self.messages.extend_from_slice(bound.as_slice());
    }

    /// Asks for a response.
    pub fn prg(&self, label: &'static str) -> (prg: PRG)
        ensures
            prg == self.response(label@),
            prg.key == derived_key(label@, self.absorbed()),
            prg.counter == 0,
    {
        PRG::new(kdf(label, self.messages.as_slice()))
    }
}

} // verus!
