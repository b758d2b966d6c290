use vstd::prelude::*;
use crate::identifier::{Identifier, IdentifierView};

verus! {

/// The data of a classification, without its id.
#[derive(Debug, Clone, PartialEq, Eq)]
pub struct ActivityClassInner {
    pub name: String,
    pub priority: i32,
    pub description: Option<String>,
}

/// A classification of activities (work, break, ...), ranked by priority:
/// when activities overlap, the highest priority wins.
#[derive(Debug, Clone, PartialEq, Eq)]
pub struct ActivityClass {
    pub id: u128,
    pub inner: ActivityClassInner,
}

/// Mathematical value of an `ActivityClass`.
pub struct ActivityClassView {
    pub id: u128,
    pub name: Seq<char>,
    pub priority: int,
    pub description: Option<Seq<char>>,
}

impl View for ActivityClass {
    type V = ActivityClassView;

    open spec fn view(&self) -> ActivityClassView {
        ActivityClassView {
            id: self.id,
            name: self.inner.name@,
            priority: self.inner.priority as int,
            description: match self.inner.description {
                Some(d) => Some(d@),
                None => None,
            },
        }
    }
}

/// Whether the identifier value refers to this classification value.
pub open spec fn class_matches(c: ActivityClassView, identifier: IdentifierView) -> bool {
    match identifier {
        IdentifierView::Uuid(id) => c.id == id,
        IdentifierView::ByName(name) => c.name == name,
    }
}

impl ActivityClass {
    pub fn identifier_matches(&self, identifier: &Identifier) -> (r: bool)
        ensures
            r == class_matches(self@, identifier@),
    {
        match identifier {
            Identifier::Uuid(id) => self.id == *id,
            Identifier::ByName(name) => self.inner.name == *name,
        }
    }

    /// An exact copy of the classification.
    pub fn duplicate(&self) -> (r: ActivityClass)
        ensures
            r@ == self@,
    {
        ActivityClass {
            id: self.id,
            inner: ActivityClassInner {
                name: self.inner.name.clone(),
                priority: self.inner.priority,
                description: match &self.inner.description {
                    Some(d) => Some(d.clone()),
                    None => None,
                },
            },
        }
    }
}

} // verus!
