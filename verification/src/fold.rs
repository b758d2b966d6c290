use vstd::prelude::*;
use vstd::pervasive::unreached;
use crate::activity::{Activity, ActivityView};
use crate::activity_class::{ActivityClass, ActivityClassView};
use crate::identifier::{Identifier, IdentifierView, idv_set, idvs_sorted_distinct,
    id_view_set, ids_sorted_distinct, insert_sorted_distinct_id};
use crate::interval::Interval;
use crate::job_config::{JobConfig, JobConfigView, spec_lowest, spec_resolve_class};
use crate::text::{sorted_distinct, sorted_distinct_seqs, set_of_seqs, view_set, views_of,
    join_sep, insert_sorted_distinct, join_strings};
use crate::time_of_day::TimeOfDay;

verus! {

/// The mathematical values of a sequence of activities.
pub open spec fn act_views(s: Seq<Activity>) -> Seq<ActivityView> {
    Seq::new(s.len(), |i: int| s[i]@)
}

/// Latest start among the activities.
pub open spec fn spec_max_start(s: Seq<ActivityView>) -> int
    recommends
        s.len() > 0,
    decreases s.len(),
{
    if s.len() <= 1 {
        s[0].time.start.nanos as int
    } else {
        let rest = spec_max_start(s.drop_last());
        if s.last().time.start.nanos > rest {
            s.last().time.start.nanos as int
        } else {
            rest
        }
    }
}

/// Earliest defined end among the activities, if any has one.
pub open spec fn spec_min_defined_end(s: Seq<ActivityView>) -> Option<int>
    decreases s.len(),
{
    if s.len() == 0 {
        None
    } else {
        let rest = spec_min_defined_end(s.drop_last());
        match (s.last().time.end, rest) {
            (Option::None, r) => r,
            (Option::Some(e), Option::None) => Some(e.nanos as int),
            (Option::Some(e), Option::Some(m)) => if e.nanos < m {
                Some(e.nanos as int)
            } else {
                Some(m)
            },
        }
    }
}

/// The classification an activity resolves to: the referenced one, or the
/// lowest-priority class when the reference is stale.
pub open spec fn spec_resolved_class(job: JobConfigView, a: ActivityView) -> ActivityClassView {
    match spec_resolve_class(job.classes, a.class) {
        Some(c) => c,
        None => spec_lowest(job),
    }
}

/// The classification of a fold: starting from the lowest-priority class,
/// each activity's resolved class replaces it when strictly higher.
pub open spec fn spec_fold_class(job: JobConfigView, s: Seq<ActivityView>) -> ActivityClassView
    decreases s.len(),
{
    if s.len() == 0 {
        spec_lowest(job)
    } else {
        let prev = spec_fold_class(job, s.drop_last());
        let c = spec_resolved_class(job, s.last());
        if c.priority > prev.priority {
            c
        } else {
            prev
        }
    }
}

/// The folded class never ranks below any contributor's resolved class.
pub proof fn lemma_fold_class_dominates(job: JobConfigView, s: Seq<ActivityView>)
    ensures
        forall|k: int| 0 <= k < s.len()
            ==> spec_fold_class(job, s).priority
                >= spec_resolved_class(job, #[trigger] s[k]).priority,
        spec_fold_class(job, s).priority >= spec_lowest(job).priority,
        spec_fold_class(job, s) == spec_lowest(job)
            || exists|k: int| 0 <= k < s.len()
                && spec_fold_class(job, s) == spec_resolved_class(job, #[trigger] s[k]),
    decreases s.len(),
{
    if s.len() > 0 {
        lemma_fold_class_dominates(job, s.drop_last());
        assert forall|k: int| 0 <= k < s.len()
            implies spec_fold_class(job, s).priority
                >= spec_resolved_class(job, #[trigger] s[k]).priority by {
            if k < s.len() - 1 {
                assert(s.drop_last()[k] == s[k]);
            }
        }
        if spec_fold_class(job, s) != spec_lowest(job) {
            let prev = spec_fold_class(job, s.drop_last());
            let c = spec_resolved_class(job, s.last());
            if c.priority > prev.priority {
                assert(spec_fold_class(job, s) == spec_resolved_class(job, s[s.len() - 1]));
            } else {
                let k = choose|k: int| 0 <= k < s.drop_last().len()
                    && prev == spec_resolved_class(job, #[trigger] s.drop_last()[k]);
                assert(s.drop_last()[k] == s[k]);
                assert(spec_fold_class(job, s) == spec_resolved_class(job, s[k]));
            }
        }
    }
}

/// The names carried by the activities.
pub open spec fn spec_name_set(s: Seq<ActivityView>) -> Set<Seq<char>> {
    Set::new(|x: Seq<char>| exists|i: int| 0 <= i < s.len() && #[trigger] s[i].name == Some(x))
}

/// The project references carried by the activities.
pub open spec fn spec_project_set(s: Seq<ActivityView>) -> Set<IdentifierView> {
    Set::new(|x: IdentifierView| exists|i: int| 0 <= i < s.len()
        && #[trigger] s[i].projects.contains(x))
}

/// Merged start: latest contributor start, raised to the lower bound.
pub open spec fn spec_fold_start(s: Seq<ActivityView>, start_limit: Option<TimeOfDay>) -> int
    recommends
        s.len() > 0,
{
    let m = spec_max_start(s);
    match start_limit {
        Some(l) => if m < l.nanos { l.nanos as int } else { m },
        None => m,
    }
}

/// Merged end: earliest defined contributor end, lowered to the upper
/// bound, which also stands in when no contributor has ended.
pub open spec fn spec_fold_end(s: Seq<ActivityView>, end_limit: Option<TimeOfDay>)
    -> Option<int> {
    match (spec_min_defined_end(s), end_limit) {
        (Option::None, Option::None) => None,
        (Option::None, Option::Some(l)) => Some(l.nanos as int),
        (Option::Some(m), Option::None) => Some(m),
        (Option::Some(m), Option::Some(l)) => if m > l.nanos { Some(l.nanos as int) } else {
            Some(m)
        },
    }
}

/// A fold yields a segment exactly when there are contributors and the
/// merged interval has not collapsed past its own start.
pub open spec fn spec_fold_yields(s: Seq<ActivityView>, start_limit: Option<TimeOfDay>,
    end_limit: Option<TimeOfDay>) -> bool {
    s.len() > 0 && match spec_fold_end(s, end_limit) {
        Some(e) => spec_fold_start(s, start_limit) <= e,
        None => true,
    }
}

/// What the merged segment carries besides its interval: the folded
/// classification's id, the sorted de-duplicated names joined for
/// display, the sorted de-duplicated project references, and no
/// description.
pub open spec fn spec_fold_metadata(job: JobConfigView, s: Seq<ActivityView>,
    f: ActivityView) -> bool {
    &&& f.class == IdentifierView::Uuid(spec_fold_class(job, s).id)
    &&& match f.name {
        Some(n) => !(spec_name_set(s) =~= Set::<Seq<char>>::empty())
            && (exists|parts: Seq<Seq<char>>| {
                &&& #[trigger] sorted_distinct_seqs(parts)
                &&& set_of_seqs(parts) =~= spec_name_set(s)
                &&& n == join_sep(parts, "; "@)
            }),
        None => spec_name_set(s) =~= Set::<Seq<char>>::empty(),
    }
    &&& idvs_sorted_distinct(f.projects)
    &&& idv_set(f.projects) =~= spec_project_set(s)
    &&& f.description is None
}

/// Everything the merged segment must satisfy, relative to the
/// contributing activities and the bounds.
pub open spec fn spec_fold_result(job: JobConfigView, s: Seq<ActivityView>,
    start_limit: Option<TimeOfDay>, end_limit: Option<TimeOfDay>, f: ActivityView) -> bool {
    &&& f.time.start.nanos == spec_fold_start(s, start_limit)
    &&& match (f.time.end, spec_fold_end(s, end_limit)) {
        (Option::Some(e), Option::Some(m)) => e.nanos == m,
        (Option::None, Option::None) => true,
        _ => false,
    }
    &&& spec_fold_metadata(job, s, f)
}

/// Relies on uuid::Uuid::new_v4 for a freshly generated random id;
/// nothing is assumed of the value.
#[verifier::external_body]
fn fresh_id() -> u128 {
    uuid::Uuid::new_v4().as_u128()
}

impl Activity {
    /// Folds several activities into one: the latest start and earliest
    /// defined end, clamped to the given bounds, the highest-priority
    /// classification, and the sorted, de-duplicated union of names and
    /// projects. Yields nothing when no activities are given or the
    /// clamped interval collapses.
    pub fn fold_inner(job_config: &JobConfig, activities: &Vec<Activity>,
        start_time_limit: Option<TimeOfDay>, end_time_limit: Option<TimeOfDay>)
        -> (r: Option<Activity>)
        ensures
            r is Some <==> spec_fold_yields(act_views(activities@), start_time_limit,
                end_time_limit),
            match r {
                Some(f) => spec_fold_result(job_config@, act_views(activities@),
                    start_time_limit, end_time_limit, f@),
                None => true,
            },
    {
        let ghost vs = act_views(activities@);
        if activities.len() == 0 {
            return None;
        }
        let mut start_opt: Option<TimeOfDay> = None;
        let mut end_min: Option<TimeOfDay> = None;
        let mut class: ActivityClass = job_config.lowest_priority_class();
        let mut names: Vec<String> = Vec::new();
        let mut projects: Vec<Identifier> = Vec::new();
        let mut i: usize = 0;
        while i < activities.len()
            invariant
                0 <= i <= activities@.len(),
                vs == act_views(activities@),
                vs.len() == activities@.len(),
                i == 0 ==> start_opt is None,
                i > 0 ==> match start_opt {
                    Some(s) => s.nanos == spec_max_start(vs.take(i as int)),
                    None => false,
                },
                match (end_min, spec_min_defined_end(vs.take(i as int))) {
                    (Option::Some(e), Option::Some(m)) => e.nanos == m,
                    (Option::None, Option::None) => true,
                    _ => false,
                },
                class@ == spec_fold_class(job_config@, vs.take(i as int)),
                sorted_distinct(names@),
                view_set(names@) =~= spec_name_set(vs.take(i as int)),
                ids_sorted_distinct(projects@),
                id_view_set(projects@) =~= spec_project_set(vs.take(i as int)),
            decreases activities@.len() - i,
        {
            let ghost pre = vs.take(i as int);
            let ghost cur = vs.take(i + 1);
            proof {
                assert(cur.drop_last() =~= pre);
                assert(cur.last() == vs[i as int]);
                assert(vs[i as int] == activities@[i as int]@);
            }
            let a = &activities[i];
            let ghost av = vs[i as int];

            match start_opt {
                Option::None => {
                    start_opt = Some(a.time.start);
                },
                Option::Some(s) => {
                    if a.time.start.nanos > s.nanos {
                        start_opt = Some(a.time.start);
                    } else {
                        start_opt = Some(s);
                    }
                },
            }

            match a.time.end {
                Option::Some(ae) => {
                    end_min = match end_min {
                        Option::None => Some(ae),
                        Option::Some(m) => if ae.nanos < m.nanos {
                            Some(ae)
                        } else {
                            Some(m)
                        },
                    };
                },
                Option::None => {},
            }

            let resolved: ActivityClass = match job_config.resolve_class(&a.class) {
                Option::Some(c) => c.duplicate(),
                Option::None => job_config.lowest_priority_class(),
            };
            proof {
                assert(resolved@ == spec_resolved_class(job_config@, av));
            }
            if resolved.inner.priority > class.inner.priority {
                class = resolved;
            }

            match &a.name {
                Option::Some(n) => {
                    insert_sorted_distinct(&mut names, n.clone());
                },
                Option::None => {},
            }
            proof {
                assert forall|x: Seq<char>| spec_name_set(cur).contains(x)
                    implies view_set(names@).contains(x) by {
                    let k = choose|k: int| 0 <= k < cur.len() && #[trigger] cur[k].name
                        == Some(x);
                    if k < i {
                        assert(pre[k].name == Some(x));
                        assert(spec_name_set(pre).contains(x));
                    } else {
                        assert(av.name == Some(x));
                    }
                }
                assert forall|x: Seq<char>| view_set(names@).contains(x)
                    implies spec_name_set(cur).contains(x) by {
                    if spec_name_set(pre).contains(x) {
                        let k = choose|k: int| 0 <= k < pre.len() && #[trigger] pre[k].name
                            == Some(x);
                        assert(cur[k].name == Some(x));
                    } else {
                        assert(av.name == Some(x));
                        assert(cur[i as int].name == Some(x));
                    }
                }
            }

            let mut j: usize = 0;
            while j < a.projects.len()
                invariant
                    0 <= j <= a.projects@.len(),
                    av.projects.len() == a.projects@.len(),
                    forall|k: int| 0 <= k < av.projects.len()
                        ==> #[trigger] av.projects[k] == a.projects@[k]@,
                    ids_sorted_distinct(projects@),
                    forall|x: IdentifierView| id_view_set(projects@).contains(x)
                        <==> (spec_project_set(vs.take(i as int)).contains(x)
                            || av.projects.take(j as int).contains(x)),
                decreases a.projects@.len() - j,
            {
                let ghost p_old = projects@;
                let d = a.projects[j].duplicate();
                proof {
                    assert(d@ == a.projects@[j as int]@);
                    assert(d@ == av.projects[j as int]);
                }
                insert_sorted_distinct_id(&mut projects, d);
                proof {
                    assert(id_view_set(projects@) =~= id_view_set(p_old).insert(
                        av.projects[j as int]));
                    assert forall|x: IdentifierView| id_view_set(projects@).contains(x)
                        <==> (spec_project_set(vs.take(i as int)).contains(x)
                            || av.projects.take(j + 1).contains(x)) by {
                        assert(id_view_set(projects@).contains(x)
                            <==> (id_view_set(p_old).contains(x)
                                || x == av.projects[j as int]));
                        if av.projects.take(j + 1).contains(x) {
                            let k = choose|k: int| 0 <= k < j + 1
                                && (#[trigger] av.projects.take(j + 1)[k]) == x;
                            if k < j {
                                assert(av.projects.take(j as int)[k] == x);
                                assert(av.projects.take(j as int).contains(x));
                            } else {
                                assert(x == av.projects[j as int]);
                            }
                        }
                        if av.projects.take(j as int).contains(x) {
                            let k = choose|k: int| 0 <= k < j
                                && (#[trigger] av.projects.take(j as int)[k]) == x;
                            assert(av.projects.take(j + 1)[k] == x);
                            assert(av.projects.take(j + 1).contains(x));
                        }
                        if x == av.projects[j as int] {
                            assert(av.projects.take(j + 1)[j as int] == x);
                            assert(av.projects.take(j + 1).contains(x));
                        }
                    }
                }
                j = j + 1;
            }
            proof {
                assert(av.projects.take(av.projects.len() as int) =~= av.projects);
                assert forall|x: IdentifierView| spec_project_set(cur).contains(x)
                    implies id_view_set(projects@).contains(x) by {
                    let k = choose|k: int| 0 <= k < cur.len()
                        && #[trigger] cur[k].projects.contains(x);
                    if k < i {
                        assert(pre[k].projects.contains(x));
                        assert(spec_project_set(pre).contains(x));
                    } else {
                        assert(av.projects.contains(x));
                    }
                }
                assert forall|x: IdentifierView| id_view_set(projects@).contains(x)
                    implies spec_project_set(cur).contains(x) by {
                    if spec_project_set(pre).contains(x) {
                        let k = choose|k: int| 0 <= k < pre.len()
                            && #[trigger] pre[k].projects.contains(x);
                        assert(cur[k].projects.contains(x));
                    } else {
                        assert(av.projects.contains(x));
                        assert(cur[i as int].projects.contains(x));
                    }
                }
            }
            i = i + 1;
        }
        proof {
            assert(vs.take(activities@.len() as int) =~= vs);
        }

        let mut start_time: TimeOfDay = match start_opt {
            Option::Some(s) => s,
            Option::None => unreached(),
        };
        match start_time_limit {
            Option::Some(l) => {
                if start_time.nanos < l.nanos {
                    start_time = l;
                }
            },
            Option::None => {},
        }
        let mut end_final: Option<TimeOfDay> = end_min;
        match end_time_limit {
            Option::Some(l) => {
                end_final = match end_final {
                    Option::Some(e) => if e.nanos > l.nanos {
                        Some(l)
                    } else {
                        Some(e)
                    },
                    Option::None => Some(l),
                };
            },
            Option::None => {},
        }
        proof {
            assert(start_time.nanos == spec_fold_start(vs, start_time_limit));
            assert(match (end_final, spec_fold_end(vs, end_time_limit)) {
                (Option::Some(e), Option::Some(m)) => e.nanos == m,
                (Option::None, Option::None) => true,
                _ => false,
            });
        }
        match end_final {
            Option::Some(e) => {
                if start_time.nanos > e.nanos {
                    return None;
                }
            },
            Option::None => {},
        }

        let name: Option<String> = if names.len() == 0 {
            proof {
                assert forall|x: Seq<char>| !spec_name_set(vs).contains(x) by {
                    if spec_name_set(vs).contains(x) {
                        assert(view_set(names@).contains(x));
                        let k = choose|k: int| 0 <= k < names@.len() && (#[trigger] names@[k]@) == x;
                    }
                }
            }
            None
        } else {
            let joined = join_strings(&names, "; ");
            proof {
                let parts = views_of(names@);
                assert(sorted_distinct_seqs(parts));
                assert forall|x: Seq<char>| set_of_seqs(parts).contains(x)
                    implies spec_name_set(vs).contains(x) by {
                    let k = choose|k: int| 0 <= k < parts.len() && (#[trigger] parts[k]) == x;
                    assert(names@[k]@ == x);
                    assert(view_set(names@).contains(x));
                }
                assert forall|x: Seq<char>| spec_name_set(vs).contains(x)
                    implies set_of_seqs(parts).contains(x) by {
                    assert(view_set(names@).contains(x));
                    let k = choose|k: int| 0 <= k < names@.len() && (#[trigger] names@[k]@) == x;
                    assert(parts[k] == x);
                }
                assert(set_of_seqs(parts) =~= spec_name_set(vs));
                assert(view_set(names@).contains(names@[0]@));
                assert(spec_name_set(vs).contains(names@[0]@));
            }
            Some(joined)
        };

        let result = Activity {
            id: fresh_id(),
            name,
            class: Identifier::Uuid(class.id),
            time: Interval { start: start_time, end: end_final },
            description: None,
            projects,
        };
        proof {
            assert(result@.projects =~= Seq::new(projects@.len(), |k: int| projects@[k]@));
            assert forall|x: IdentifierView| idv_set(result@.projects).contains(x)
                implies id_view_set(projects@).contains(x) by {
                let k = choose|k: int| 0 <= k < result@.projects.len()
                    && (#[trigger] result@.projects[k]) == x;
            }
            assert forall|x: IdentifierView| id_view_set(projects@).contains(x)
                implies idv_set(result@.projects).contains(x) by {
                let k = choose|k: int| 0 <= k < projects@.len() && (#[trigger] projects@[k]@) == x;
                assert(result@.projects[k] == x);
            }
            assert(idv_set(result@.projects) =~= id_view_set(projects@));
        }
        Some(result)
    }
}

} // verus!
