//! A document of the flavour whose placeholders are written `${target}`, read
//! and held.

use vstd::prelude::*;
use crate::data::{Data, DOLLAR};
use crate::error::Error;
use crate::parser::document_value;
use crate::value::{Json, Value};

verus! {

/// A document that has been read: it holds the document's value.
pub struct Zen {
    value: Value,
}

impl View for Zen {
    type V = Json;

    closed spec fn view(&self) -> Json {
        self.value@
    }
}

impl Zen {
    /// Reads a document whose placeholders are written `${target}`.
    pub fn parse(input: &str) -> (r: Result<Self, Error>)
        ensures
            match document_value(input@, DOLLAR) {
                Ok(json) => r matches Ok(held) && held@ == json,
                Err(fault) => r matches Err(e) && e@ == fault,
            },
            r matches Ok(held) ==> held@.wf(),
    {
        match Data::parse(input) {
            Ok(value) => Ok(Zen { value }),
            Err(e) => Err(e),
        }
    }

    /// What the document holds.
    pub fn value(&self) -> (r: &Value)
        ensures
            r@ == self@,
    {
        &self.value
    }

    /// Gives the document's value away.
    pub fn into_value(self) -> (r: Value)
        ensures
            r@ == self@,
    {
        self.value
    }
}

} // verus!
