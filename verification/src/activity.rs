use vstd::prelude::*;
use crate::identifier::{Identifier, IdentifierView};
use crate::interval::Interval;

verus! {

/// A recorded unit of work, break, or similar: a classification reference,
/// a time interval (possibly still open), and optional metadata.
/// Several activities may run at the same time; the closure reconciles
/// them into a non-overlapping timeline.
#[derive(Debug, Clone, PartialEq, Eq)]
pub struct Activity {
    /// Unique id, used for editing reference.
    pub id: u128,
    /// Optional name of the activity.
    pub name: Option<String>,
    /// Reference to the activity's classification.
    pub class: Identifier,
    /// Time spent on the activity.
    pub time: Interval,
    /// Optional description.
    pub description: Option<String>,
    /// Projects worked on.
    pub projects: Vec<Identifier>,
}

/// Mathematical value of an `Activity`.
pub struct ActivityView {
    pub id: u128,
    pub name: Option<Seq<char>>,
    pub class: IdentifierView,
    pub time: Interval,
    pub description: Option<Seq<char>>,
    pub projects: Seq<IdentifierView>,
}

impl View for Activity {
    type V = ActivityView;

    open spec fn view(&self) -> ActivityView {
        ActivityView {
            id: self.id,
            name: match self.name {
                Some(n) => Some(n@),
                None => None,
            },
            class: self.class@,
            time: self.time,
            description: match self.description {
                Some(d) => Some(d@),
                None => None,
            },
            projects: Seq::new(self.projects@.len(), |i: int| self.projects@[i]@),
        }
    }
}

impl Activity {
    /// An exact copy of the activity.
    pub fn duplicate(&self) -> (r: Activity)
        ensures
            r@ == self@,
    {
        let mut projects: Vec<Identifier> = Vec::new();
        let mut i: usize = 0;
        while i < self.projects.len()
            invariant
                0 <= i <= self.projects@.len(),
                projects@.len() == i,
                forall|k: int| 0 <= k < i ==> projects@[k]@ == #[trigger] self.projects@[k]@,
            decreases self.projects@.len() - i,
        {
            projects.push(self.projects[i].duplicate());
            i = i + 1;
        }
        let r = Activity {
            id: self.id,
            name: match &self.name {
                Some(n) => Some(n.clone()),
                None => None,
            },
            class: self.class.duplicate(),
            time: self.time,
            description: match &self.description {
                Some(d) => Some(d.clone()),
                None => None,
            },
            projects,
        };
        proof {
            assert(r@.projects =~= self@.projects);
        }
        r
    }
}

} // verus!
