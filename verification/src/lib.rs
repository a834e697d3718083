//! An incremental computation engine for a markdown-rendering pipeline.
//!
//! The heart of the crate is [`engine`]: a database that memoizes the results
//! of pure queries over a set of mutable input cells, tracks which queries
//! depend on which inputs and on which other queries, and recomputes the
//! minimum necessary set of results when inputs change. Around it stand the
//! path model ([`path`]) and the markdown front end ([`md`]) that the
//! rendering pipeline uses.

use vstd::prelude::*;

pub mod engine;
pub mod md;
pub mod path;
pub mod query;
pub mod semantics;

verus! {

/// A stable identity for a resource of the site: what the dependency graph
/// addresses its nodes by.
#[derive(Debug, PartialEq, Eq, Hash)]
pub struct Id {
    name: String,
}

impl Id {
    /// The identity's name.
    pub closed spec fn name_spec(&self) -> Seq<char> {
        self.name@
    }

    /// Wraps a name as an identity.
    pub fn new(name: String) -> (r: Id)
        ensures
            r.name_spec() == name@,
    {
        Id { name }
    }

    /// The identity's name.
    pub fn name(&self) -> (r: &String)
        ensures
            r@ == self.name_spec(),
    {
        &self.name
    }
}

/// Anything the site pipeline tracks as a node of its dependency graph: it
/// answers with its stable identity.
pub trait Resource {
    /// The stable identity of this resource.
    fn id(&self) -> Id;
}

} // verus!
