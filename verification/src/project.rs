use vstd::prelude::*;
use crate::identifier::{Identifier, IdentifierView};

verus! {

/// The data of a project, without its id.
#[derive(Debug, Clone, PartialEq, Eq)]
pub struct ProjectInner {
    pub name: String,
    pub description: Option<String>,
}

/// A project that activities can be booked on.
#[derive(Debug, Clone, PartialEq, Eq)]
pub struct Project {
    pub id: u128,
    pub inner: ProjectInner,
}

/// Mathematical value of a `Project`.
pub struct ProjectView {
    pub id: u128,
    pub name: Seq<char>,
    pub description: Option<Seq<char>>,
}

impl View for Project {
    type V = ProjectView;

    open spec fn view(&self) -> ProjectView {
        ProjectView {
            id: self.id,
            name: self.inner.name@,
            description: match self.inner.description {
                Some(d) => Some(d@),
                None => None,
            },
        }
    }
}

/// Whether the identifier value refers to this project value.
pub open spec fn project_matches(p: ProjectView, identifier: IdentifierView) -> bool {
    match identifier {
        IdentifierView::Uuid(id) => p.id == id,
        IdentifierView::ByName(name) => p.name == name,
    }
}

impl Project {
    pub fn identifier_matches(&self, identifier: &Identifier) -> (r: bool)
        ensures
            r == project_matches(self@, identifier@),
    {
        match identifier {
            Identifier::Uuid(id) => self.id == *id,
            Identifier::ByName(name) => self.inner.name == *name,
        }
    }
}

} // verus!
