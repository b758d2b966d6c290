use vstd::prelude::*;
use crate::activity_class::{ActivityClass, ActivityClassInner, ActivityClassView, class_matches};
use crate::identifier::{Identifier, IdentifierView};
use crate::project::{Project, ProjectInner, ProjectView, project_matches};
use vstd::string::StringExecFns;

verus! {

/// The configuration of a tracked job: the registry of activity
/// classifications and of projects.
#[derive(Debug, Clone)]
pub struct JobConfig {
    /// Activity classes.
    pub classes: Vec<ActivityClass>,
    /// Projects.
    pub projects: Vec<Project>,
}

/// Mathematical value of a `JobConfig`.
pub struct JobConfigView {
    pub classes: Seq<ActivityClassView>,
    pub projects: Seq<ProjectView>,
}

impl View for JobConfig {
    type V = JobConfigView;

    open spec fn view(&self) -> JobConfigView {
        JobConfigView {
            classes: Seq::new(self.classes@.len(), |i: int| self.classes@[i]@),
            projects: Seq::new(self.projects@.len(), |i: int| self.projects@[i]@),
        }
    }
}

/// The classification substituted when the registry holds none at all.
pub open spec fn spec_dummy_class() -> ActivityClassView {
    ActivityClassView {
        id: 0,
        name: "<UNDEFINED>"@,
        priority: 0,
        description: Some("No classes specified in job config. Using a dummy class."@),
    }
}

/// The lowest-priority classification: the registry's minimum, or the
/// dummy class when the registry is empty.
pub open spec fn spec_lowest(job: JobConfigView) -> ActivityClassView {
    if job.classes.len() == 0 {
        spec_dummy_class()
    } else {
        spec_min_class(job.classes)
    }
}

/// The minimum-priority class of a non-empty registry, keeping the first
/// one among equal minima.
pub open spec fn spec_min_class(s: Seq<ActivityClassView>) -> ActivityClassView
    recommends
        s.len() > 0,
    decreases s.len(),
{
    if s.len() <= 1 {
        s[0]
    } else {
        let rest = spec_min_class(s.drop_last());
        if s.last().priority < rest.priority {
            s.last()
        } else {
            rest
        }
    }
}

pub proof fn lemma_min_class_is_min(s: Seq<ActivityClassView>)
    requires
        s.len() > 0,
    ensures
        forall|k: int| 0 <= k < s.len() ==> spec_min_class(s).priority <= #[trigger] s[k].priority,
        exists|k: int| 0 <= k < s.len() && s[k] == spec_min_class(s),
    decreases s.len(),
{
    if s.len() == 1 {
        assert(s[0] == spec_min_class(s));
    } else {
        lemma_min_class_is_min(s.drop_last());
        assert forall|k: int| 0 <= k < s.len()
            implies spec_min_class(s).priority <= #[trigger] s[k].priority by {
            if k < s.len() - 1 {
                assert(s.drop_last()[k] == s[k]);
            }
        }
        if s.last().priority < spec_min_class(s.drop_last()).priority {
            assert(s[s.len() - 1] == spec_min_class(s));
        } else {
            let k = choose|k: int| 0 <= k < s.drop_last().len()
                && s.drop_last()[k] == spec_min_class(s.drop_last());
            assert(s[k] == spec_min_class(s));
        }
    }
}

/// First class of the registry that the identifier refers to.
pub open spec fn spec_resolve_class(classes: Seq<ActivityClassView>, identifier: IdentifierView)
    -> Option<ActivityClassView>
    decreases classes.len(),
{
    if classes.len() == 0 {
        None
    } else if class_matches(classes[0], identifier) {
        Some(classes[0])
    } else {
        spec_resolve_class(classes.drop_first(), identifier)
    }
}

/// First project of the registry that the identifier refers to.
pub open spec fn spec_resolve_project(projects: Seq<ProjectView>, identifier: IdentifierView)
    -> Option<ProjectView>
    decreases projects.len(),
{
    if projects.len() == 0 {
        None
    } else if project_matches(projects[0], identifier) {
        Some(projects[0])
    } else {
        spec_resolve_project(projects.drop_first(), identifier)
    }
}

pub proof fn lemma_resolve_class_properties(classes: Seq<ActivityClassView>,
    identifier: IdentifierView)
    ensures
        spec_resolve_class(classes, identifier) is Some
            <==> exists|k: int| 0 <= k < classes.len()
                && class_matches(#[trigger] classes[k], identifier),
        match spec_resolve_class(classes, identifier) {
            Some(c) => exists|k: int| 0 <= k < classes.len() && classes[k] == c
                && class_matches(c, identifier),
            None => true,
        },
    decreases classes.len(),
{
    if classes.len() > 0 && !class_matches(classes[0], identifier) {
        lemma_resolve_class_properties(classes.drop_first(), identifier);
        let rest = classes.drop_first();
        if spec_resolve_class(classes, identifier) is Some {
            let k = choose|k: int| 0 <= k < rest.len()
                && rest[k] == spec_resolve_class(classes, identifier)->Some_0
                && class_matches(rest[k], identifier);
            assert(classes[k + 1] == rest[k]);
        }
        if exists|k: int| 0 <= k < classes.len()
            && class_matches(#[trigger] classes[k], identifier) {
            let k = choose|k: int| 0 <= k < classes.len()
                && class_matches(#[trigger] classes[k], identifier);
            assert(rest[k - 1] == classes[k]);
        }
    }
}

impl JobConfig {
    /// The class with the lowest priority; when the registry is empty, a
    /// dummy zero-priority class stands in.
    pub fn lowest_priority_class(&self) -> (r: ActivityClass)
        ensures
            r@ == spec_lowest(self@),
    {
        if self.classes.len() == 0 {
            return ActivityClass {
                id: 0,
                inner: ActivityClassInner {
                    priority: 0,
                    name: String::from_str("<UNDEFINED>"),
                    description: Some(String::from_str(
                        "No classes specified in job config. Using a dummy class.")),
                },
            };
        }
        let mut best: usize = 0;
        let mut i: usize = 1;
        while i < self.classes.len()
            invariant
                1 <= i <= self.classes@.len(),
                0 <= best < i,
                self.classes@.len() > 0,
                self.classes@[best as int]@ == spec_min_class(self@.classes.take(i as int)),
            decreases self.classes@.len() - i,
        {
            proof {
                let pre = self@.classes.take(i as int);
                let cur = self@.classes.take(i + 1);
                assert(cur.drop_last() =~= pre);
                assert(cur.last() == self@.classes[i as int]);
            }
            if self.classes[i].inner.priority < self.classes[best].inner.priority {
                best = i;
            }
            i = i + 1;
        }
        proof {
            assert(self@.classes.take(self.classes@.len() as int) =~= self@.classes);
        }
        self.classes[best].duplicate()
    }

    /// First class of the registry that the identifier refers to.
    pub fn resolve_class(&self, identifier: &Identifier) -> (r: Option<&ActivityClass>)
        ensures
            match r {
                Some(c) => spec_resolve_class(self@.classes, identifier@) == Some(c@),
                None => spec_resolve_class(self@.classes, identifier@) is None,
            },
    {
        proof {
            assert(self@.classes.skip(0) =~= self@.classes);
        }
        let mut i: usize = 0;
        while i < self.classes.len()
            invariant
                0 <= i <= self.classes@.len(),
                spec_resolve_class(self@.classes, identifier@)
                    == spec_resolve_class(self@.classes.skip(i as int), identifier@),
                forall|k: int| 0 <= k < i
                    ==> !class_matches(#[trigger] self@.classes[k], identifier@),
            decreases self.classes@.len() - i,
        {
            proof {
                assert(self@.classes.skip(i as int)[0] == self@.classes[i as int]);
                assert(self@.classes.skip(i as int).drop_first()
                    =~= self@.classes.skip(i + 1));
            }
            if self.classes[i].identifier_matches(identifier) {
                return Some(&self.classes[i]);
            }
            i = i + 1;
        }
        proof {
            assert(self@.classes.skip(self.classes@.len() as int) =~= Seq::<
                ActivityClassView>::empty());
        }
        None
    }

    /// First project of the registry that the identifier refers to.
    pub fn resolve_project(&self, identifier: &Identifier) -> (r: Option<&Project>)
        ensures
            match r {
                Some(p) => spec_resolve_project(self@.projects, identifier@) == Some(p@),
                None => spec_resolve_project(self@.projects, identifier@) is None,
            },
    {
        proof {
            assert(self@.projects.skip(0) =~= self@.projects);
        }
        let mut i: usize = 0;
        while i < self.projects.len()
            invariant
                0 <= i <= self.projects@.len(),
                spec_resolve_project(self@.projects, identifier@)
                    == spec_resolve_project(self@.projects.skip(i as int), identifier@),
            decreases self.projects@.len() - i,
        {
            proof {
                assert(self@.projects.skip(i as int)[0] == self@.projects[i as int]);
                assert(self@.projects.skip(i as int).drop_first()
                    =~= self@.projects.skip(i + 1));
            }
            if self.projects[i].identifier_matches(identifier) {
                return Some(&self.projects[i]);
            }
            i = i + 1;
        }
        proof {
            assert(self@.projects.skip(self.projects@.len() as int) =~= Seq::<
                ProjectView>::empty());
        }
        None
    }
}

/// The classes of the registry that the identifier does not refer to, in
/// order.
pub open spec fn spec_retain_classes(classes: Seq<ActivityClassView>,
    identifier: IdentifierView) -> Seq<ActivityClassView>
    decreases classes.len(),
{
    if classes.len() == 0 {
        classes
    } else {
        let rest = spec_retain_classes(classes.drop_last(), identifier);
        if class_matches(classes.last(), identifier) {
            rest
        } else {
            rest.push(classes.last())
        }
    }
}

/// The projects of the registry that the identifier does not refer to, in
/// order.
pub open spec fn spec_retain_projects(projects: Seq<ProjectView>,
    identifier: IdentifierView) -> Seq<ProjectView>
    decreases projects.len(),
{
    if projects.len() == 0 {
        projects
    } else {
        let rest = spec_retain_projects(projects.drop_last(), identifier);
        if project_matches(projects.last(), identifier) {
            rest
        } else {
            rest.push(projects.last())
        }
    }
}

impl JobConfig {
    /// Whether some class of the registry carries this name.
    pub fn has_class_named(&self, name: &String) -> (r: bool)
        ensures
            r == exists|k: int| 0 <= k < self@.classes.len()
                && (#[trigger] self@.classes[k]).name == name@,
    {
        let mut i: usize = 0;
        while i < self.classes.len()
            invariant
                0 <= i <= self.classes@.len(),
                forall|k: int| 0 <= k < i ==> (#[trigger] self@.classes[k]).name != name@,
            decreases self.classes@.len() - i,
        {
            if self.classes[i].inner.name == *name {
                proof {
                    assert(self@.classes[i as int].name == name@);
                }
                return true;
            }
            i = i + 1;
        }
        false
    }

    /// Whether some project of the registry carries this name.
    pub fn has_project_named(&self, name: &String) -> (r: bool)
        ensures
            r == exists|k: int| 0 <= k < self@.projects.len()
                && (#[trigger] self@.projects[k]).name == name@,
    {
        let mut i: usize = 0;
        while i < self.projects.len()
            invariant
                0 <= i <= self.projects@.len(),
                forall|k: int| 0 <= k < i ==> (#[trigger] self@.projects[k]).name != name@,
            decreases self.projects@.len() - i,
        {
            if self.projects[i].inner.name == *name {
                proof {
                    assert(self@.projects[i as int].name == name@);
                }
                return true;
            }
            i = i + 1;
        }
        false
    }

    /// Add a class to the registry unless its name is taken.
    pub fn add_class(&mut self, class: ActivityClass) -> (r: bool)
        ensures
            r == !(exists|k: int| 0 <= k < old(self)@.classes.len()
                && (#[trigger] old(self)@.classes[k]).name == class@.name),
            r ==> final(self)@.classes =~= old(self)@.classes.push(class@),
            !r ==> final(self)@.classes =~= old(self)@.classes,
            final(self)@.projects =~= old(self)@.projects,
    {
        if self.has_class_named(&class.inner.name) {
            return false;
        }
        self.classes.push(class);
        true
    }

    /// Add a project to the registry unless its name is taken.
    pub fn add_project(&mut self, project: Project) -> (r: bool)
        ensures
            r == !(exists|k: int| 0 <= k < old(self)@.projects.len()
                && (#[trigger] old(self)@.projects[k]).name == project@.name),
            r ==> final(self)@.projects =~= old(self)@.projects.push(project@),
            !r ==> final(self)@.projects =~= old(self)@.projects,
            final(self)@.classes =~= old(self)@.classes,
    {
        if self.has_project_named(&project.inner.name) {
            return false;
        }
        self.projects.push(project);
        true
    }

    /// Remove every class the identifier refers to; reports whether any
    /// was removed.
    pub fn remove_class(&mut self, identifier: &Identifier) -> (r: bool)
        ensures
            final(self)@.classes =~= spec_retain_classes(old(self)@.classes, identifier@),
            final(self)@.projects =~= old(self)@.projects,
            r == (final(self)@.classes.len() != old(self)@.classes.len()),
    {
        let mut kept: Vec<ActivityClass> = Vec::new();
        let mut i: usize = 0;
        while i < self.classes.len()
            invariant
                0 <= i <= self.classes@.len(),
                Seq::new(kept@.len(), |k: int| kept@[k]@)
                    =~= spec_retain_classes(self@.classes.take(i as int), identifier@),
            decreases self.classes@.len() - i,
        {
            let ghost pre = self@.classes.take(i as int);
            let ghost cur = self@.classes.take(i + 1);
            let ghost kept_pre = Seq::new(kept@.len(), |k: int| kept@[k]@);
            proof {
                assert(cur.drop_last() =~= pre);
                assert(cur.last() == self.classes@[i as int]@);
            }
            if !self.classes[i].identifier_matches(identifier) {
                kept.push(self.classes[i].duplicate());
                proof {
                    assert(Seq::new(kept@.len(), |k: int| kept@[k]@)
                        =~= kept_pre.push(self.classes@[i as int]@));
                }
            }
            i = i + 1;
        }
        proof {
            assert(self@.classes.take(self.classes@.len() as int) =~= self@.classes);
        }
        let removed = kept.len() != self.classes.len();
        self.classes = kept;
        removed
    }

    /// Remove every project the identifier refers to; reports whether any
    /// was removed.
    pub fn remove_project(&mut self, identifier: &Identifier) -> (r: bool)
        ensures
            final(self)@.projects =~= spec_retain_projects(old(self)@.projects,
                identifier@),
            final(self)@.classes =~= old(self)@.classes,
            r == (final(self)@.projects.len() != old(self)@.projects.len()),
    {
        let mut kept: Vec<Project> = Vec::new();
        let mut i: usize = 0;
        while i < self.projects.len()
            invariant
                0 <= i <= self.projects@.len(),
                Seq::new(kept@.len(), |k: int| kept@[k]@)
                    =~= spec_retain_projects(self@.projects.take(i as int), identifier@),
            decreases self.projects@.len() - i,
        {
            let ghost pre = self@.projects.take(i as int);
            let ghost cur = self@.projects.take(i + 1);
            let ghost kept_pre = Seq::new(kept@.len(), |k: int| kept@[k]@);
            proof {
                assert(cur.drop_last() =~= pre);
                assert(cur.last() == self.projects@[i as int]@);
            }
            if !self.projects[i].identifier_matches(identifier) {
                let p = Project {
                    id: self.projects[i].id,
                    inner: ProjectInner {
                        name: self.projects[i].inner.name.clone(),
                        description: match &self.projects[i].inner.description {
                            Some(d) => Some(d.clone()),
                            None => None,
                        },
                    },
                };
                kept.push(p);
                proof {
                    assert(Seq::new(kept@.len(), |k: int| kept@[k]@)
                        =~= kept_pre.push(self.projects@[i as int]@));
                }
            }
            i = i + 1;
        }
        proof {
            assert(self@.projects.take(self.projects@.len() as int) =~= self@.projects);
        }
        let removed = kept.len() != self.projects.len();
        self.projects = kept;
        removed
    }
}

impl Default for JobConfig {
    /// The registry a fresh installation starts with: work, break and
    /// holiday classes in ascending priority, and no projects.
    fn default() -> (r: Self)
        ensures
            r@.projects.len() == 0,
            r@.classes.len() == 3,
            r@.classes[0].name == "work"@ && r@.classes[0].priority == 0
                && r@.classes[0].id == 0x181e5c242a6d49da882b60a07a38e2b0,
            r@.classes[1].name == "break"@ && r@.classes[1].priority == 5
                && r@.classes[1].id == 0xa7c3da19648f43e3abc1874e49e79bde,
            r@.classes[2].name == "holiday"@ && r@.classes[2].priority == 10
                && r@.classes[2].id == 0xe45b8156efc5492fb79080d6be52b74f,
    {
        JobConfig {
            classes: vec![
                ActivityClass {
                    id: 0x181e5c242a6d49da882b60a07a38e2b0,
                    inner: ActivityClassInner {
                        priority: 0,
                        name: String::from_str("work"),
                        description: Some(String::from_str(
                            "Work. Counted against work quota.")),
                    },
                },
                ActivityClass {
                    id: 0xa7c3da19648f43e3abc1874e49e79bde,
                    inner: ActivityClassInner {
                        priority: 5,
                        name: String::from_str("break"),
                        description: Some(String::from_str(
                            "Activities classified as a short break during work. Legally required break-time.")),
                    },
                },
                ActivityClass {
                    id: 0xe45b8156efc5492fb79080d6be52b74f,
                    inner: ActivityClassInner {
                        priority: 10,
                        name: String::from_str("holiday"),
                        description: Some(String::from_str("Holiday/Vacation time.")),
                    },
                },
            ],
            projects: vec![],
        }
    }
}

} // verus!
