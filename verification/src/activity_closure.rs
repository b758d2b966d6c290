use vstd::prelude::*;
use vstd::multiset::Multiset;
use crate::activity::{Activity, ActivityView};
use crate::fold::{act_views, spec_fold_start, spec_fold_end, spec_fold_result,
    spec_fold_metadata, spec_fold_yields, spec_fold_class, spec_resolved_class,
    spec_max_start, spec_min_defined_end, spec_name_set, lemma_fold_class_dominates};
use crate::interval::Interval;
use crate::job_config::{JobConfig, JobConfigView, spec_resolve_class, spec_lowest,
    lemma_min_class_is_min};
use crate::identifier::IdentifierView;
use crate::text::{sorted_distinct_seqs, set_of_seqs, join_sep};
use crate::time_of_day::{TimeOfDay, NANOS_PER_DAY};

verus! {

/// The last representable instant; open intervals run up to it.
pub open spec fn day_max() -> int {
    NANOS_PER_DAY - 1
}

/// Whether an instant lies within the optional window bounds.
pub open spec fn in_window(start: Option<TimeOfDay>, end: Option<TimeOfDay>, t: int) -> bool {
    &&& match start {
        Some(a) => t >= a.nanos,
        None => true,
    }
    &&& match end {
        Some(b) => t < b.nanos,
        None => true,
    }
}

/// Whether some activity of the sequence covers the instant.
pub open spec fn covered(s: Seq<ActivityView>, t: int) -> bool {
    exists|i: int| 0 <= i < s.len() && (#[trigger] s[i]).time.covers(t)
}

pub open spec fn sorted_by_start(s: Seq<ActivityView>) -> bool {
    forall|i: int, j: int| 0 <= i < j < s.len()
        ==> (#[trigger] s[i]).time.start.nanos <= (#[trigger] s[j]).time.start.nanos
}

pub open spec fn all_well_formed(s: Seq<ActivityView>) -> bool {
    forall|i: int| 0 <= i < s.len() ==> (#[trigger] s[i]).time.is_well_formed()
}

pub open spec fn all_closed(s: Seq<ActivityView>) -> bool {
    forall|i: int| 0 <= i < s.len() ==> (#[trigger] s[i]).time.end is Some
}

pub open spec fn all_open(s: Seq<ActivityView>) -> bool {
    forall|i: int| 0 <= i < s.len() ==> (#[trigger] s[i]).time.end is None
}

/// Every segment has positive length.
pub open spec fn closure_positive(r: Seq<ActivityView>) -> bool {
    forall|i: int| 0 <= i < r.len()
        ==> (#[trigger] r[i]).time.start.nanos < r[i].time.spec_effective_end().nanos
}

/// Segments are ordered and non-overlapping; only the last may be open.
pub open spec fn closure_ordered(r: Seq<ActivityView>) -> bool {
    forall|i: int| 0 <= i < r.len() - 1
        ==> match (#[trigger] r[i]).time.end {
            Some(e) => e.nanos <= r[i + 1].time.start.nanos,
            None => false,
        }
}

/// The instant is the start of some activity of the sequence.
pub open spec fn start_boundary(s: Seq<ActivityView>, t: int) -> bool {
    exists|k: int| 0 <= k < s.len() && (#[trigger] s[k]).time.start.nanos == t
}

/// The instant is the defined end of some activity of the sequence.
pub open spec fn end_boundary(s: Seq<ActivityView>, t: int) -> bool {
    exists|k: int| 0 <= k < s.len() && match (#[trigger] s[k]).time.end {
        Some(e) => e.nanos == t,
        None => false,
    }
}

pub open spec fn boundary_pt(s: Seq<ActivityView>, t: int) -> bool {
    start_boundary(s, t) || end_boundary(s, t)
}

/// Two intervals share at least one instant.
pub open spec fn overlaps(a: Interval, b: Interval) -> bool {
    let lo = if a.start.nanos >= b.start.nanos { a.start.nanos as int } else {
        b.start.nanos as int
    };
    let hi = if a.spec_effective_end().nanos <= b.spec_effective_end().nanos {
        a.spec_effective_end().nanos as int
    } else {
        b.spec_effective_end().nanos as int
    };
    lo < hi
}

/// No two classes of the registry share an id.
pub open spec fn unique_class_ids(job: JobConfigView) -> bool {
    forall|i: int, j: int| 0 <= i < j < job.classes.len()
        ==> (#[trigger] job.classes[i]).id != (#[trigger] job.classes[j]).id
}

/// The priority an identifier resolves to.
pub open spec fn spec_priority_of(job: JobConfigView, ident: IdentifierView) -> int {
    match spec_resolve_class(job.classes, ident) {
        Some(c) => c.priority,
        None => spec_lowest(job).priority,
    }
}

/// The fold that shaped a segment: some ordering of exactly the
/// activities active during the span `iv` whose folded metadata (class
/// id, joined names, merged projects, no description) the segment
/// carries.
#[verifier::opaque]
pub open spec fn seg_fold_ok(job: JobConfigView, inp: Seq<ActivityView>, iv: Interval,
    f: ActivityView) -> bool {
    exists|contribs: Seq<ActivityView>| {
        &&& #[trigger] spec_fold_metadata(job, contribs, f)
        &&& forall|i: int| 0 <= i < contribs.len()
            ==> inp.contains(#[trigger] contribs[i]) && overlaps(contribs[i].time, iv)
        &&& forall|k: int| 0 <= k < inp.len() && overlaps((#[trigger] inp[k]).time, iv)
            ==> contribs.contains(inp[k])
    }
}

/// How the span a clamped segment was cut from relates to the segment:
/// it contains it, and each bound either kept its place or moved to the
/// window's.
pub open spec fn clamp_iv(iv: Interval, seg: Interval, start: Option<TimeOfDay>,
    end: Option<TimeOfDay>) -> bool {
    &&& iv.start.nanos <= seg.start.nanos
    &&& seg.spec_effective_end().nanos <= iv.spec_effective_end().nanos
    &&& (seg.start == iv.start || match start {
        Some(a) => seg.start.nanos == a.nanos,
        None => false,
    })
    &&& match (seg.end, iv.end) {
        (Option::Some(x), Option::Some(y)) => x == y || match end {
            Some(b) => x.nanos == b.nanos,
            None => false,
        },
        (Option::None, Option::None) => true,
        (Option::Some(x), Option::None) => match end {
            Some(b) => x.nanos == b.nanos,
            None => false,
        },
        (Option::None, Option::Some(_)) => false,
    }
}

/// A segment of the clamped closure carries the fold of the span it was
/// cut from.
pub open spec fn seg_clamped_fold_ok(job: JobConfigView, inp: Seq<ActivityView>,
    seg: ActivityView, start: Option<TimeOfDay>, end: Option<TimeOfDay>) -> bool {
    exists|iv: Interval| #[trigger] clamp_iv(iv, seg.time, start, end)
        && seg_fold_ok(job, inp, iv, seg)
}

/// With unique ids, resolving a registry class's own id yields that class.
pub proof fn lemma_resolve_own_id(classes: Seq<crate::activity_class::ActivityClassView>,
    k: int)
    requires
        0 <= k < classes.len(),
        forall|i: int, j: int| 0 <= i < j < classes.len()
            ==> (#[trigger] classes[i]).id != (#[trigger] classes[j]).id,
    ensures
        spec_resolve_class(classes, IdentifierView::Uuid(classes[k].id)) == Some(classes[k]),
    decreases classes.len(),
{
    if k == 0 {
    } else {
        assert(classes[0].id != classes[k].id);
        let rest = classes.drop_first();
        assert forall|i: int, j: int| 0 <= i < j < rest.len()
            implies (#[trigger] rest[i]).id != (#[trigger] rest[j]).id by {
            assert(rest[i] == classes[i + 1]);
            assert(rest[j] == classes[j + 1]);
        }
        assert(rest[k - 1] == classes[k]);
        lemma_resolve_own_id(rest, k - 1);
    }
}

/// Any element's start is a lower bound of the maximum start.
pub proof fn lemma_max_start_bounds(s: Seq<ActivityView>)
    requires
        s.len() > 0,
    ensures
        forall|k: int| 0 <= k < s.len()
            ==> (#[trigger] s[k]).time.start.nanos <= spec_max_start(s),
        exists|k: int| 0 <= k < s.len()
            && (#[trigger] s[k]).time.start.nanos == spec_max_start(s),
    decreases s.len(),
{
    if s.len() > 1 {
        lemma_max_start_bounds(s.drop_last());
        assert forall|k: int| 0 <= k < s.len()
            implies (#[trigger] s[k]).time.start.nanos <= spec_max_start(s) by {
            if k < s.len() - 1 {
                assert(s.drop_last()[k] == s[k]);
            }
        }
        if s.last().time.start.nanos > spec_max_start(s.drop_last()) {
            assert(s[s.len() - 1].time.start.nanos == spec_max_start(s));
        } else {
            let k = choose|k: int| 0 <= k < s.drop_last().len()
                && (#[trigger] s.drop_last()[k]).time.start.nanos
                    == spec_max_start(s.drop_last());
            assert(s[k] == s.drop_last()[k]);
            assert(s[k].time.start.nanos == spec_max_start(s));
        }
    } else {
        assert(s[0].time.start.nanos == spec_max_start(s));
    }
}

/// If every defined end is at least `e`, the minimum defined end is too.
pub proof fn lemma_min_end_lower_bound(s: Seq<ActivityView>, e: int)
    requires
        forall|k: int| 0 <= k < s.len() ==> match (#[trigger] s[k]).time.end {
            Some(x) => x.nanos >= e,
            None => true,
        },
    ensures
        match spec_min_defined_end(s) {
            Some(m) => m >= e,
            None => true,
        },
    decreases s.len(),
{
    if s.len() > 0 {
        assert forall|k: int| 0 <= k < s.drop_last().len()
            implies match (#[trigger] s.drop_last()[k]).time.end {
                Some(x) => x.nanos >= e,
                None => true,
            } by {
            assert(s.drop_last()[k] == s[k]);
        }
        lemma_min_end_lower_bound(s.drop_last(), e);
        assert(s[s.len() - 1] == s.last());
    }
}

/// The sweep's state between steps. `vsorted` is the whole sorted input,
/// `k` how many of its activities have been consumed, `heap` and `opens`
/// the active closed and open activities, `closure` what has been
/// emitted, and `frontier` the instant up to which the timeline is
/// settled.
pub open spec fn sweep_inv(job: JobConfigView, vsorted: Seq<ActivityView>, k: int,
    heap: Seq<ActivityView>, opens: Seq<ActivityView>, closure: Seq<ActivityView>,
    last_end: Option<TimeOfDay>, frontier: int) -> bool {
    let processed = vsorted.take(k);
    let actives = heap + opens;
    &&& 0 <= k <= vsorted.len()
    &&& 0 <= frontier <= day_max()
    &&& all_closed(heap)
    &&& all_open(opens)
    // Emitted segments: closed, positive, ordered, settled below the frontier.
    &&& forall|i: int| 0 <= i < closure.len() ==> (#[trigger] closure[i]).time.end is Some
    &&& closure_positive(closure)
    &&& closure_ordered(closure)
    &&& forall|i: int| 0 <= i < closure.len()
        ==> (#[trigger] closure[i]).time.spec_effective_end().nanos <= frontier
    // Active activities are processed ones, and every processed activity
    // still running past the frontier is active.
    &&& forall|i: int| 0 <= i < actives.len() ==> processed.contains(#[trigger] actives[i])
    &&& forall|j: int| 0 <= j < k
        && (#[trigger] processed[j]).time.spec_effective_end().nanos > frontier
        ==> actives.contains(processed[j])
    // Positions relative to the frontier.
    &&& forall|i: int| 0 <= i < actives.len()
        ==> (#[trigger] actives[i]).time.start.nanos <= frontier
    &&& forall|i: int| 0 <= i < heap.len()
        ==> (#[trigger] heap[i]).time.spec_effective_end().nanos >= frontier
    &&& forall|j: int| 0 <= j < k ==> (#[trigger] processed[j]).time.start.nanos <= frontier
    &&& forall|j: int| k <= j < vsorted.len()
        ==> (#[trigger] vsorted[j]).time.start.nanos >= frontier
    &&& match last_end {
        Some(le) => le.nanos <= frontier && end_boundary(vsorted, le.nanos as int),
        None => true,
    }
    // Coverage: emitted segments cover exactly the covered instants below
    // the frontier; above it, the active set stands for the processed one.
    &&& forall|t: int| covered(closure, t) <==> (t < frontier && covered(processed, t))
    &&& forall|t: int| t >= frontier ==> (covered(processed, t) <==> covered(actives, t))
    // Segment boundaries are input boundaries, and no input boundary lies
    // strictly inside a segment.
    &&& forall|i: int| 0 <= i < closure.len()
        ==> boundary_pt(vsorted, (#[trigger] closure[i]).time.start.nanos as int)
    &&& forall|i: int| 0 <= i < closure.len() ==> match (#[trigger] closure[i]).time.end {
        Some(e) => boundary_pt(vsorted, e.nanos as int),
        None => true,
    }
    &&& forall|i: int, j: int| 0 <= i < closure.len() && 0 <= j < vsorted.len()
        ==> !((#[trigger] closure[i]).time.start.nanos < (#[trigger] vsorted[j]).time.start.nanos
            < closure[i].time.spec_effective_end().nanos)
    &&& forall|i: int, j: int| 0 <= i < closure.len() && 0 <= j < vsorted.len()
        ==> match (#[trigger] vsorted[j]).time.end {
            Some(e) => !((#[trigger] closure[i]).time.start.nanos < e.nanos
                < closure[i].time.spec_effective_end().nanos),
            None => true,
        }
    // Priority correctness of emitted segments.
    &&& unique_class_ids(job) ==> forall|i: int, j: int| 0 <= i < closure.len()
        && 0 <= j < vsorted.len()
        && overlaps((#[trigger] vsorted[j]).time, (#[trigger] closure[i]).time)
        ==> spec_priority_of(job, closure[i].class) >= spec_priority_of(job, vsorted[j].class)
    // Each emitted segment carries the fold of exactly the activities
    // active during its span.
    &&& forall|i: int| 0 <= i < closure.len()
        ==> seg_fold_ok(job, vsorted, (#[trigger] closure[i]).time, closure[i])
}

/// The next fold can reach back exactly to the frontier: either the last
/// emission ended there, or an active activity starts there.
pub open spec fn frontier_reachable(heap: Seq<ActivityView>, opens: Seq<ActivityView>,
    last_end: Option<TimeOfDay>, frontier: int) -> bool {
    (heap + opens).len() > 0 ==> (match last_end {
        Some(le) => le.nanos == frontier,
        None => false,
    } || exists|i: int| 0 <= i < (heap + opens).len()
        && (#[trigger] (heap + opens)[i]).time.start.nanos == frontier)
}

/// Effective upper bound of a fold: its defined end, or the day's last
/// instant when it stays open.
pub open spec fn spec_fold_eff_end(s: Seq<ActivityView>, en: Option<TimeOfDay>) -> int {
    match spec_fold_end(s, en) {
        Some(e) => e,
        None => day_max(),
    }
}

/// Whether a fold over the active set emits a segment: it must yield one
/// and the segment must have positive length.
pub open spec fn spec_report_emits(s: Seq<ActivityView>, st: Option<TimeOfDay>,
    en: Option<TimeOfDay>) -> bool {
    s.len() > 0 && spec_fold_start(s, st) < spec_fold_eff_end(s, en)
}

/// The priority that the folded class's id resolves back to is the folded
/// class's own priority, provided registry ids are unique.
#[verifier::spinoff_prover]
proof fn lemma_fold_class_priority_of(job: JobConfigView, avs: Seq<ActivityView>)
    requires
        unique_class_ids(job),
    ensures
        spec_priority_of(job, IdentifierView::Uuid(spec_fold_class(job, avs).id))
            == spec_fold_class(job, avs).priority,
{
    let fc = spec_fold_class(job, avs);
    lemma_fold_class_dominates(job, avs);
    if job.classes.len() == 0 {
        assert forall|a: ActivityView| #[trigger] spec_resolved_class(job, a)
            == spec_lowest(job) by {
            assert(spec_resolve_class(job.classes, a.class) is None);
        }
        assert(fc == spec_lowest(job)) by {
            if fc != spec_lowest(job) {
                let k = choose|k: int| 0 <= k < avs.len()
                    && fc == spec_resolved_class(job, #[trigger] avs[k]);
            }
        }
        assert(spec_resolve_class(job.classes, IdentifierView::Uuid(fc.id)) is None);
    } else {
        let idx: int = if fc == spec_lowest(job) {
            lemma_min_class_is_min(job.classes);
            choose|i: int| 0 <= i < job.classes.len() && #[trigger] job.classes[i] == fc
        } else {
            let k = choose|k: int| 0 <= k < avs.len()
                && fc == spec_resolved_class(job, #[trigger] avs[k]);
            match spec_resolve_class(job.classes, avs[k].class) {
                Some(_c) => {
                    crate::job_config::lemma_resolve_class_properties(job.classes,
                        avs[k].class);
                    choose|i: int| 0 <= i < job.classes.len()
                        && #[trigger] job.classes[i] == fc
                },
                None => {
                    lemma_min_class_is_min(job.classes);
                    choose|i: int| 0 <= i < job.classes.len() && #[trigger] job.classes[i] == fc
                },
            }
        };
        assert(0 <= idx < job.classes.len() && job.classes[idx] == fc);
        lemma_resolve_own_id(job.classes, idx);
    }
}

/// With no defined end among the activities, the minimum is undefined.
proof fn lemma_min_end_none(s: Seq<ActivityView>)
    requires
        all_open(s),
    ensures
        spec_min_defined_end(s) is None,
    decreases s.len(),
{
    if s.len() > 0 {
        assert forall|k: int| 0 <= k < s.drop_last().len()
            implies (#[trigger] s.drop_last()[k]).time.end is None by {
            assert(s.drop_last()[k] == s[k]);
        }
        lemma_min_end_none(s.drop_last());
        assert(s[s.len() - 1] == s.last());
    }
}

/// The freshly emitted segment `[frontier, e)` carries the fold of
/// exactly the activities active during it: the active set itself.
#[verifier::rlimit(100)]
#[verifier::spinoff_prover]
proof fn lemma_emit_metadata(job: JobConfigView, vsorted: Seq<ActivityView>, k: int,
    heap: Seq<ActivityView>, opens: Seq<ActivityView>, frontier: int, e: int,
    f: ActivityView)
    requires
        0 <= k <= vsorted.len(),
        all_closed(heap),
        all_open(opens),
        forall|i: int| 0 <= i < (heap + opens).len()
            ==> vsorted.take(k).contains(#[trigger] (heap + opens)[i]),
        forall|i: int| 0 <= i < (heap + opens).len()
            ==> (#[trigger] (heap + opens)[i]).time.start.nanos <= frontier,
        forall|i: int| 0 <= i < heap.len()
            ==> (#[trigger] heap[i]).time.spec_effective_end().nanos >= e,
        forall|j: int| 0 <= j < k
            && (#[trigger] vsorted.take(k)[j]).time.spec_effective_end().nanos > frontier
            ==> (heap + opens).contains(vsorted.take(k)[j]),
        forall|j: int| 0 <= j < k ==> (#[trigger] vsorted.take(k)[j]).time.start.nanos
            <= frontier,
        forall|j: int| k <= j < vsorted.len()
            ==> (#[trigger] vsorted[j]).time.start.nanos >= e,
        frontier < e <= day_max(),
        f.time.start.nanos == frontier,
        match f.time.end {
            Some(x) => x.nanos == e,
            None => false,
        },
        spec_fold_metadata(job, heap + opens, f),
    ensures
        seg_fold_ok(job, vsorted, f.time, f),
{
    let avs = heap + opens;
    let processed = vsorted.take(k);
    assert(f.time.spec_effective_end().nanos == e);
    reveal(seg_fold_ok);
    assert forall|i: int| 0 <= i < avs.len()
        implies vsorted.contains(#[trigger] avs[i]) && overlaps(avs[i].time, f.time) by {
        assert(processed.contains(avs[i]));
        let j = choose|j: int| 0 <= j < processed.len() && processed[j] == avs[i];
        assert(vsorted[j] == avs[i]);
        if i < heap.len() {
            assert(avs[i] == heap[i]);
            assert(heap[i].time.spec_effective_end().nanos >= e);
        } else {
            assert(avs[i] == opens[i - heap.len()]);
            assert(opens[i - heap.len()].time.end is None);
        }
    }
    assert forall|j: int| 0 <= j < vsorted.len()
        && overlaps((#[trigger] vsorted[j]).time, f.time)
        implies avs.contains(vsorted[j]) by {
        assert(vsorted[j].time.start.nanos < e);
        assert(vsorted[j].time.spec_effective_end().nanos > frontier);
        assert(j < k);
        assert(processed[j] == vsorted[j]);
        assert(avs.contains(processed[j]));
    }
    assert(seg_fold_ok(job, vsorted, f.time, f));
}

/// Advancing the frontier to `e`: the fold over the active set with upper
/// bound `e` either emitted the segment `[frontier, e)` or covered
/// nothing, and the sweep invariant moves along.
#[verifier::rlimit(100)]
#[verifier::spinoff_prover]
proof fn lemma_advance(job: JobConfigView, vsorted: Seq<ActivityView>, k: int,
    heap: Seq<ActivityView>, opens: Seq<ActivityView>, closure: Seq<ActivityView>,
    last_end: Option<TimeOfDay>, frontier: int, e: int, emitted: Option<ActivityView>)
    requires
        all_well_formed(vsorted),
        sweep_inv(job, vsorted, k, heap, opens, closure, last_end, frontier),
        frontier_reachable(heap, opens, last_end, frontier),
        frontier <= e <= day_max(),
        boundary_pt(vsorted, e),
        forall|i: int| 0 <= i < heap.len()
            ==> (#[trigger] heap[i]).time.spec_effective_end().nanos >= e,
        forall|j: int| k <= j < vsorted.len()
            ==> (#[trigger] vsorted[j]).time.start.nanos >= e,
        ({
            let avs = heap + opens;
            let lim = Some(TimeOfDay { nanos: e as u64 });
            match emitted {
                Some(f) => spec_report_emits(avs, last_end, lim)
                    && spec_fold_result(job, avs, last_end, lim, f),
                None => !spec_report_emits(avs, last_end, lim),
            }
        }),
    ensures
        sweep_inv(job, vsorted, k, heap, opens,
            match emitted {
                Some(f) => closure.push(f),
                None => closure,
            }, last_end, e),
{
    let avs = heap + opens;
    let processed = vsorted.take(k);
    let lim = Some(TimeOfDay { nanos: e as u64 });
    let closure2 = match emitted {
        Some(f) => closure.push(f),
        None => closure,
    };

    if avs.len() > 0 {
        lemma_max_start_bounds(avs);
        assert(spec_max_start(avs) <= frontier);
        match last_end {
            Some(le) => {
                if le.nanos == frontier {
                    assert(spec_fold_start(avs, last_end) == frontier);
                } else {
                    let i = choose|i: int| 0 <= i < avs.len()
                        && (#[trigger] avs[i]).time.start.nanos == frontier;
                    assert(spec_max_start(avs) == frontier);
                    assert(spec_fold_start(avs, last_end) == frontier);
                }
            },
            None => {
                let i = choose|i: int| 0 <= i < avs.len()
                    && (#[trigger] avs[i]).time.start.nanos == frontier;
                assert(spec_max_start(avs) == frontier);
                assert(spec_fold_start(avs, last_end) == frontier);
            },
        }
        assert forall|i: int| 0 <= i < avs.len()
            implies match (#[trigger] avs[i]).time.end {
                Some(x) => x.nanos >= e,
                None => true,
            } by {
            if i < heap.len() {
                assert(avs[i] == heap[i]);
                assert(heap[i].time.spec_effective_end().nanos >= e);
            } else {
                assert(avs[i] == opens[i - heap.len()]);
            }
        }
        lemma_min_end_lower_bound(avs, e);
        assert(match spec_fold_end(avs, lim) {
            Some(x) => x == e,
            None => false,
        });
        assert(spec_fold_eff_end(avs, lim) == e);
    }

    // Shape of the emitted segment.
    match emitted {
        Some(f) => {
            assert(avs.len() > 0);
            assert(f.time.start.nanos == frontier);
            assert(match f.time.end {
                Some(x) => x.nanos == e,
                None => false,
            });
            assert(f.time.spec_effective_end().nanos == e);
            assert(frontier < e);
        },
        None => {},
    }

    // Emitted segments: closed, positive, ordered, settled below e.
    assert forall|i: int| 0 <= i < closure2.len()
        implies (#[trigger] closure2[i]).time.end is Some by {
        if i < closure.len() {
            assert(closure2[i] == closure[i]);
        }
    }
    assert forall|i: int| 0 <= i < closure2.len()
        implies (#[trigger] closure2[i]).time.start.nanos
            < closure2[i].time.spec_effective_end().nanos by {
        if i < closure.len() {
            assert(closure2[i] == closure[i]);
        }
    }
    assert forall|i: int| 0 <= i < closure2.len() - 1
        implies match (#[trigger] closure2[i]).time.end {
            Some(x) => x.nanos <= closure2[i + 1].time.start.nanos,
            None => false,
        } by {
        if i < closure.len() - 1 {
            assert(closure2[i] == closure[i]);
            assert(closure2[i + 1] == closure[i + 1]);
        } else {
            // i is the old last element, i + 1 the new segment.
            assert(closure2[i] == closure[i]);
            assert(closure[i].time.spec_effective_end().nanos <= frontier);
        }
    }
    assert forall|i: int| 0 <= i < closure2.len()
        implies (#[trigger] closure2[i]).time.spec_effective_end().nanos <= e by {
        if i < closure.len() {
            assert(closure2[i] == closure[i]);
            assert(closure[i].time.spec_effective_end().nanos <= frontier);
        }
    }

    // Coverage at the new frontier.
    assert forall|t: int| covered(closure2, t) <==> (t < e && covered(processed, t)) by {
        if covered(closure2, t) {
            let i = choose|i: int| 0 <= i < closure2.len()
                && (#[trigger] closure2[i]).time.covers(t);
            if i < closure.len() {
                assert(closure[i].time.covers(t));
                assert(covered(closure, t));
                assert(t < frontier && covered(processed, t));
            } else {
                // the new segment covers t, so frontier <= t < e
                assert(frontier <= t < e);
                assert(covered(avs, t) ==> covered(processed, t));
                assert(avs[0].time.start.nanos <= frontier);
                if 0 < heap.len() {
                    assert(avs[0] == heap[0]);
                    assert(heap[0].time.spec_effective_end().nanos >= e);
                } else {
                    assert(avs[0] == opens[0]);
                    assert(opens[0].time.end is None);
                }
                assert(avs[0].time.covers(t));
                assert(covered(avs, t));
            }
        }
        if t < e && covered(processed, t) {
            if t < frontier {
                assert(covered(closure, t));
                let i = choose|i: int| 0 <= i < closure.len()
                    && (#[trigger] closure[i]).time.covers(t);
                assert(closure2[i].time.covers(t));
                assert(covered(closure2, t));
            } else {
                // frontier <= t < e: the active set covers t, so the fold
                // emitted, and the new segment covers t.
                assert(covered(avs, t));
                assert(avs.len() > 0);
                assert(frontier < e);
                match emitted {
                    Some(f) => {
                        assert(f.time.covers(t));
                        assert(closure2[closure.len() as int] == f);
                        assert(covered(closure2, t));
                    },
                    None => {
                        assert(spec_report_emits(avs, last_end, lim));
                    },
                }
            }
        }
    }
    assert forall|t: int| t >= e implies (covered(processed, t) <==> covered(avs, t)) by {
        assert(t >= frontier);
    }

    // Boundaries of the new segment.
    match emitted {
        Some(f) => {
            assert(boundary_pt(vsorted, f.time.start.nanos as int)) by {
                match last_end {
                    Some(le) => {
                        if le.nanos == frontier {
                            assert(end_boundary(vsorted, frontier));
                        } else {
                            let i = choose|i: int| 0 <= i < avs.len()
                                && (#[trigger] avs[i]).time.start.nanos == frontier;
                            assert(processed.contains(avs[i]));
                            let j = choose|j: int| 0 <= j < processed.len()
                                && processed[j] == avs[i];
                            assert(vsorted[j] == avs[i]);
                            assert(start_boundary(vsorted, frontier));
                        }
                    },
                    None => {
                        let i = choose|i: int| 0 <= i < avs.len()
                            && (#[trigger] avs[i]).time.start.nanos == frontier;
                        assert(processed.contains(avs[i]));
                        let j = choose|j: int| 0 <= j < processed.len()
                            && processed[j] == avs[i];
                        assert(vsorted[j] == avs[i]);
                        assert(start_boundary(vsorted, frontier));
                    },
                }
            }
            assert forall|i: int| 0 <= i < closure2.len()
                implies boundary_pt(vsorted,
                    (#[trigger] closure2[i]).time.start.nanos as int) by {
                if i < closure.len() {
                    assert(closure2[i] == closure[i]);
                }
            }
            assert forall|i: int| 0 <= i < closure2.len()
                implies match (#[trigger] closure2[i]).time.end {
                    Some(x) => boundary_pt(vsorted, x.nanos as int),
                    None => true,
                } by {
                if i < closure.len() {
                    assert(closure2[i] == closure[i]);
                }
            }
        },
        None => {},
    }

    // No input boundary lies strictly inside the new segment.
    assert forall|i: int, j: int| 0 <= i < closure2.len() && 0 <= j < vsorted.len()
        implies !((#[trigger] closure2[i]).time.start.nanos
            < (#[trigger] vsorted[j]).time.start.nanos
            < closure2[i].time.spec_effective_end().nanos) by {
        if i < closure.len() {
            assert(closure2[i] == closure[i]);
        } else {
            if j < k {
                assert(processed[j] == vsorted[j]);
                assert(processed[j].time.start.nanos <= frontier);
            } else {
                assert(vsorted[j].time.start.nanos >= e);
            }
        }
    }
    assert forall|i: int, j: int| 0 <= i < closure2.len() && 0 <= j < vsorted.len()
        implies match (#[trigger] vsorted[j]).time.end {
            Some(x) => !((#[trigger] closure2[i]).time.start.nanos < x.nanos
                < closure2[i].time.spec_effective_end().nanos),
            None => true,
        } by {
        if i < closure.len() {
            assert(closure2[i] == closure[i]);
        } else {
            match vsorted[j].time.end {
                Some(x) => {
                    if j < k {
                        assert(processed[j] == vsorted[j]);
                        if x.nanos > frontier {
                            assert(processed[j].time.spec_effective_end().nanos > frontier);
                            assert(avs.contains(processed[j]));
                            let i2 = choose|i2: int| 0 <= i2 < avs.len()
                                && avs[i2] == processed[j];
                            if i2 < heap.len() {
                                assert(avs[i2] == heap[i2]);
                                assert(heap[i2].time.spec_effective_end().nanos >= e);
                            } else {
                                assert(avs[i2] == opens[i2 - heap.len()]);
                                assert(opens[i2 - heap.len()].time.end is None);
                            }
                        }
                    } else {
                        assert(vsorted[j].time.is_well_formed());
                        assert(x.nanos >= vsorted[j].time.start.nanos);
                        assert(vsorted[j].time.start.nanos >= e);
                    }
                },
                None => {},
            }
        }
    }

    // The fold carried by the new segment: the active set is exactly what
    // was active during its span.
    match emitted {
        Some(f) => {
            lemma_emit_metadata(job, vsorted, k, heap, opens, frontier, e, f);
        },
        None => {},
    }
    assert forall|i: int| 0 <= i < closure2.len()
        implies seg_fold_ok(job, vsorted, (#[trigger] closure2[i]).time, closure2[i]) by {
        if i < closure.len() {
            assert(closure2[i] == closure[i]);
        }
    }
    // Priority correctness of the new segment.
    if unique_class_ids(job) {
        assert forall|i: int, j: int| 0 <= i < closure2.len() && 0 <= j < vsorted.len()
            && overlaps((#[trigger] vsorted[j]).time, (#[trigger] closure2[i]).time)
            implies spec_priority_of(job, closure2[i].class)
                >= spec_priority_of(job, vsorted[j].class) by {
            if i < closure.len() {
                assert(closure2[i] == closure[i]);
            } else {
                let f = closure2[i];
                // overlap forces the input to run past the frontier and to
                // start before e, so it is processed and active.
                assert(vsorted[j].time.start.nanos < e);
                assert(vsorted[j].time.spec_effective_end().nanos > frontier);
                assert(j < k);
                assert(processed[j] == vsorted[j]);
                assert(avs.contains(processed[j]));
                let i2 = choose|i2: int| 0 <= i2 < avs.len() && avs[i2] == processed[j];
                lemma_fold_class_dominates(job, avs);
                assert(spec_fold_class(job, avs).priority
                    >= spec_resolved_class(job, avs[i2]).priority);
                lemma_fold_class_priority_of(job, avs);
                assert(f.class == IdentifierView::Uuid(spec_fold_class(job, avs).id));
            }
        }
    }
}

/// Removing a finished activity from the heap once the frontier has
/// reached its end.
#[verifier::spinoff_prover]
proof fn lemma_pop(job: JobConfigView, vsorted: Seq<ActivityView>, k: int,
    heap: Seq<ActivityView>, opens: Seq<ActivityView>, closure: Seq<ActivityView>,
    last_end: Option<TimeOfDay>, frontier: int, mi: int)
    requires
        all_well_formed(vsorted),
        sweep_inv(job, vsorted, k, heap, opens, closure, last_end, frontier),
        0 <= mi < heap.len(),
        heap[mi].time.spec_effective_end().nanos == frontier,
    ensures
        sweep_inv(job, vsorted, k, heap.remove(mi), opens, closure,
            Some(TimeOfDay { nanos: frontier as u64 }), frontier),
        frontier_reachable(heap.remove(mi), opens,
            Some(TimeOfDay { nanos: frontier as u64 }), frontier),
{
    let processed = vsorted.take(k);
    let avs = heap + opens;
    let heap2 = heap.remove(mi);
    let avs2 = heap2 + opens;
    let le2 = Some(TimeOfDay { nanos: frontier as u64 });

    assert forall|i: int| 0 <= i < avs2.len()
        implies processed.contains(#[trigger] avs2[i])
            && avs2[i].time.start.nanos <= frontier by {
        if i < heap2.len() {
            if i < mi {
                assert(avs2[i] == heap[i]);
                assert(avs[i] == heap[i]);
            } else {
                assert(avs2[i] == heap[i + 1]);
                assert(avs[i + 1] == heap[i + 1]);
            }
        } else {
            assert(avs2[i] == opens[i - heap2.len()]);
            assert(avs[i + 1 - heap2.len() + heap.len() - 1] == opens[i - heap2.len()]);
        }
    }
    assert forall|i: int| 0 <= i < heap2.len()
        implies (#[trigger] heap2[i]).time.end is Some
            && heap2[i].time.spec_effective_end().nanos >= frontier by {
        if i < mi {
            assert(heap2[i] == heap[i]);
        } else {
            assert(heap2[i] == heap[i + 1]);
        }
    }
    assert forall|j: int| 0 <= j < k
        && (#[trigger] processed[j]).time.spec_effective_end().nanos > frontier
        implies avs2.contains(processed[j]) by {
        assert(avs.contains(processed[j]));
        let i = choose|i: int| 0 <= i < avs.len() && avs[i] == processed[j];
        if i < heap.len() {
            assert(avs[i] == heap[i]);
            assert(i != mi);
            if i < mi {
                assert(avs2[i] == heap[i]);
            } else {
                assert(avs2[i - 1] == heap[i]);
            }
        } else {
            assert(avs[i] == opens[i - heap.len()]);
            assert(avs2[i - 1] == opens[i - heap.len()]);
        }
    }
    assert forall|t: int| t >= frontier
        implies (covered(processed, t) <==> covered(avs2, t)) by {
        if covered(avs, t) {
            let i = choose|i: int| 0 <= i < avs.len() && (#[trigger] avs[i]).time.covers(t);
            if i < heap.len() {
                assert(avs[i] == heap[i]);
                assert(i != mi);
                if i < mi {
                    assert(avs2[i] == heap[i]);
                } else {
                    assert(avs2[i - 1] == heap[i]);
                }
            } else {
                assert(avs[i] == opens[i - heap.len()]);
                assert(avs2[i - 1] == opens[i - heap.len()]);
            }
            assert(covered(avs2, t));
        }
        if covered(avs2, t) {
            let i = choose|i: int| 0 <= i < avs2.len() && (#[trigger] avs2[i]).time.covers(t);
            if i < heap2.len() {
                if i < mi {
                    assert(avs[i] == heap[i]);
                    assert(avs[i] == avs2[i]);
                } else {
                    assert(avs[i + 1] == heap[i + 1]);
                    assert(avs2[i] == heap[i + 1]);
                }
            } else {
                assert(avs2[i] == opens[i - heap2.len()]);
                assert(avs[i + 1] == opens[i - heap2.len()]);
            }
            assert(covered(avs, t));
        }
    }
    assert(end_boundary(vsorted, frontier)) by {
        assert(avs[mi] == heap[mi]);
        assert(processed.contains(heap[mi]));
        let j = choose|j: int| 0 <= j < processed.len() && processed[j] == heap[mi];
        assert(vsorted[j] == heap[mi]);
    }
}

/// Consuming the next input activity once the frontier has reached its
/// start: it joins the heap or the open-ended list.
#[verifier::spinoff_prover]
proof fn lemma_insert(job: JobConfigView, vsorted: Seq<ActivityView>, k: int,
    heap: Seq<ActivityView>, opens: Seq<ActivityView>, closure: Seq<ActivityView>,
    last_end: Option<TimeOfDay>, frontier: int)
    requires
        all_well_formed(vsorted),
        sorted_by_start(vsorted),
        sweep_inv(job, vsorted, k, heap, opens, closure, last_end, frontier),
        0 <= k < vsorted.len(),
        vsorted[k].time.start.nanos == frontier,
    ensures
        match vsorted[k].time.end {
            Some(_) => sweep_inv(job, vsorted, k + 1, heap.push(vsorted[k]), opens, closure,
                last_end, frontier),
            None => sweep_inv(job, vsorted, k + 1, heap, opens.push(vsorted[k]), closure,
                last_end, frontier),
        },
        match vsorted[k].time.end {
            Some(_) => frontier_reachable(heap.push(vsorted[k]), opens, last_end, frontier),
            None => frontier_reachable(heap, opens.push(vsorted[k]), last_end, frontier),
        },
{
    let x = vsorted[k];
    let processed = vsorted.take(k);
    let processed2 = vsorted.take(k + 1);
    let avs = heap + opens;
    let heap2 = if x.time.end is Some { heap.push(x) } else { heap };
    let opens2 = if x.time.end is Some { opens } else { opens.push(x) };
    let avs2 = heap2 + opens2;
    assert(processed2.drop_last() =~= processed);
    assert(processed2[k] == x);
    assert(x.time.is_well_formed());

    // Where each old active sits in the new concatenation, and where the
    // new element sits.
    assert forall|i: int| 0 <= i < avs.len() implies avs2.contains(#[trigger] avs[i]) by {
        if i < heap.len() {
            assert(avs[i] == heap[i]);
            assert(avs2[i] == heap2[i]);
        } else {
            assert(avs[i] == opens[i - heap.len()]);
            assert(avs2[heap2.len() + (i - heap.len())] == opens[i - heap.len()]);
        }
    }
    let xi: int = if x.time.end is Some { heap.len() as int } else {
        (heap2.len() + opens.len()) as int
    };
    assert(avs2[xi] == x);

    assert forall|i: int| 0 <= i < avs2.len()
        implies processed2.contains(#[trigger] avs2[i])
            && avs2[i].time.start.nanos <= frontier by {
        if i < heap2.len() {
            if i < heap.len() {
                assert(avs2[i] == heap[i]);
                assert(avs[i] == heap[i]);
                assert(processed.contains(heap[i]));
                let j = choose|j: int| 0 <= j < processed.len() && processed[j] == heap[i];
                assert(processed2[j] == heap[i]);
            } else {
                assert(avs2[i] == x);
            }
        } else {
            let oi = i - heap2.len();
            if oi < opens.len() {
                assert(avs2[i] == opens[oi]);
                assert(avs[heap.len() + oi] == opens[oi]);
                assert(processed.contains(opens[oi]));
                let j = choose|j: int| 0 <= j < processed.len() && processed[j] == opens[oi];
                assert(processed2[j] == opens[oi]);
            } else {
                assert(avs2[i] == x);
            }
        }
    }
    assert forall|i: int| 0 <= i < heap2.len()
        implies (#[trigger] heap2[i]).time.end is Some
            && heap2[i].time.spec_effective_end().nanos >= frontier by {
        if i < heap.len() {
            assert(heap2[i] == heap[i]);
        } else {
            assert(heap2[i] == x);
        }
    }
    assert forall|i: int| 0 <= i < opens2.len()
        implies (#[trigger] opens2[i]).time.end is None by {
        if i < opens.len() {
            assert(opens2[i] == opens[i]);
        } else {
            assert(opens2[i] == x);
        }
    }
    assert forall|j: int| 0 <= j < k + 1
        && (#[trigger] processed2[j]).time.spec_effective_end().nanos > frontier
        implies avs2.contains(processed2[j]) by {
        if j < k {
            assert(processed2[j] == processed[j]);
            assert(avs.contains(processed[j]));
            let i = choose|i: int| 0 <= i < avs.len() && avs[i] == processed[j];
        } else {
            assert(processed2[j] == x);
            assert(avs2[xi] == x);
        }
    }
    assert forall|j: int| 0 <= j < k + 1
        implies (#[trigger] processed2[j]).time.start.nanos <= frontier by {
        if j < k {
            assert(processed2[j] == processed[j]);
        }
    }
    assert forall|j: int| k + 1 <= j < vsorted.len()
        implies (#[trigger] vsorted[j]).time.start.nanos >= frontier by {
        assert(vsorted[k].time.start.nanos <= vsorted[j].time.start.nanos);
    }

    // Coverage both below and above the frontier.
    assert forall|t: int| covered(closure, t) <==> (t < frontier && covered(processed2, t))
        by {
        if covered(closure, t) {
            assert(t < frontier && covered(processed, t));
            let j = choose|j: int| 0 <= j < processed.len()
                && (#[trigger] processed[j]).time.covers(t);
            assert(processed2[j].time.covers(t));
        }
        if t < frontier && covered(processed2, t) {
            let j = choose|j: int| 0 <= j < processed2.len()
                && (#[trigger] processed2[j]).time.covers(t);
            if j < k {
                assert(processed[j].time.covers(t));
                assert(covered(processed, t));
            } else {
                assert(x.time.covers(t));
                assert(t >= frontier);
            }
        }
    }
    assert forall|t: int| t >= frontier
        implies (covered(processed2, t) <==> covered(avs2, t)) by {
        if covered(processed2, t) {
            let j = choose|j: int| 0 <= j < processed2.len()
                && (#[trigger] processed2[j]).time.covers(t);
            if j < k {
                assert(processed[j].time.covers(t));
                assert(covered(processed, t));
                assert(covered(avs, t));
                let i = choose|i: int| 0 <= i < avs.len()
                    && (#[trigger] avs[i]).time.covers(t);
                assert(avs2.contains(avs[i]));
                let i2 = choose|i2: int| 0 <= i2 < avs2.len() && avs2[i2] == avs[i];
                assert(covered(avs2, t));
            } else {
                assert(avs2[xi].time.covers(t));
                assert(covered(avs2, t));
            }
        }
        if covered(avs2, t) {
            let i = choose|i: int| 0 <= i < avs2.len() && (#[trigger] avs2[i]).time.covers(t);
            assert(processed2.contains(avs2[i]));
            let j = choose|j: int| 0 <= j < processed2.len() && processed2[j] == avs2[i];
            assert(covered(processed2, t));
        }
    }
    assert(frontier_reachable(heap2, opens2, last_end, frontier)) by {
        assert(avs2[xi].time.start.nanos == frontier);
    }
}

/// The reach of a fold over open-ended activities only: it starts at the
/// frontier and never ends.
#[verifier::spinoff_prover]
proof fn lemma_final_reach(opens: Seq<ActivityView>, last_end: Option<TimeOfDay>,
    frontier: int)
    requires
        opens.len() > 0,
        all_open(opens),
        forall|i: int| 0 <= i < opens.len()
            ==> (#[trigger] opens[i]).time.start.nanos <= frontier,
        match last_end {
            Some(le) => le.nanos == frontier,
            None => false,
        } || exists|i: int| 0 <= i < opens.len()
            && (#[trigger] opens[i]).time.start.nanos == frontier,
        match last_end {
            Some(le) => le.nanos <= frontier,
            None => true,
        },
    ensures
        spec_fold_start(opens, last_end) == frontier,
        spec_fold_end(opens, None) is None,
        spec_fold_eff_end(opens, None) == day_max(),
        spec_report_emits(opens, last_end, None) <==> frontier < day_max(),
{
    lemma_max_start_bounds(opens);
    match last_end {
        Some(le) => {
            if le.nanos != frontier {
                let i = choose|i: int| 0 <= i < opens.len()
                    && (#[trigger] opens[i]).time.start.nanos == frontier;
                assert(spec_max_start(opens) == frontier);
            }
        },
        None => {
            let i = choose|i: int| 0 <= i < opens.len()
                && (#[trigger] opens[i]).time.start.nanos == frontier;
            assert(spec_max_start(opens) == frontier);
        },
    }
    lemma_min_end_none(opens);
}

/// Appending the trailing open segment `[frontier, _)` keeps the closure
/// exact: it then covers all remaining covered instants.
#[verifier::rlimit(100)]
#[verifier::spinoff_prover]
proof fn lemma_final_coverage(vsorted: Seq<ActivityView>, opens: Seq<ActivityView>,
    closure: Seq<ActivityView>, frontier: int, emitted: Option<ActivityView>)
    requires
        all_well_formed(vsorted),
        0 <= frontier <= day_max(),
        all_open(opens),
        forall|i: int| 0 <= i < opens.len()
            ==> (#[trigger] opens[i]).time.start.nanos <= frontier,
        forall|t: int| covered(closure, t) <==> (t < frontier && covered(vsorted, t)),
        forall|t: int| t >= frontier ==> (covered(vsorted, t) <==> covered(opens, t)),
        forall|i: int| 0 <= i < closure.len()
            ==> (#[trigger] closure[i]).time.spec_effective_end().nanos <= frontier,
        closure_positive(closure),
        closure_ordered(closure),
        forall|i: int| 0 <= i < closure.len() ==> (#[trigger] closure[i]).time.end is Some,
        match emitted {
            Some(f) => opens.len() > 0 && frontier < day_max()
                && f.time.start.nanos == frontier && f.time.end is None,
            None => opens.len() == 0 || frontier == day_max(),
        },
    ensures
        ({
            let closure2 = match emitted {
                Some(f) => closure.push(f),
                None => closure,
            };
            &&& forall|t: int| covered(closure2, t) <==> covered(vsorted, t)
            &&& closure_positive(closure2)
            &&& closure_ordered(closure2)
        }),
{
    let closure2 = match emitted {
        Some(f) => closure.push(f),
        None => closure,
    };
    assert forall|t: int| covered(closure2, t) <==> covered(vsorted, t) by {
        if covered(closure2, t) {
            let i = choose|i: int| 0 <= i < closure2.len()
                && (#[trigger] closure2[i]).time.covers(t);
            if i < closure.len() {
                assert(closure[i].time.covers(t));
                assert(covered(closure, t));
            } else {
                assert(frontier <= t < day_max());
                assert(opens[0].time.covers(t));
                assert(covered(opens, t));
            }
        }
        if covered(vsorted, t) {
            if t < frontier {
                assert(covered(closure, t));
                let i = choose|i: int| 0 <= i < closure.len()
                    && (#[trigger] closure[i]).time.covers(t);
                assert(closure2[i].time.covers(t));
            } else {
                assert(covered(opens, t));
                let i = choose|i: int| 0 <= i < opens.len()
                    && (#[trigger] opens[i]).time.covers(t);
                assert(t < day_max());
                match emitted {
                    Some(f) => {
                        assert(f.time.covers(t));
                        assert(closure2[closure.len() as int] == f);
                    },
                    None => {},
                }
            }
        }
    }
    assert forall|i: int| 0 <= i < closure2.len()
        implies (#[trigger] closure2[i]).time.start.nanos
            < closure2[i].time.spec_effective_end().nanos by {
        if i < closure.len() {
            assert(closure2[i] == closure[i]);
        }
    }
    assert forall|i: int| 0 <= i < closure2.len() - 1
        implies match (#[trigger] closure2[i]).time.end {
            Some(x) => x.nanos <= closure2[i + 1].time.start.nanos,
            None => false,
        } by {
        if i < closure.len() - 1 {
            assert(closure2[i] == closure[i]);
            assert(closure2[i + 1] == closure[i + 1]);
        } else {
            assert(closure2[i] == closure[i]);
            assert(closure[i].time.spec_effective_end().nanos <= frontier);
        }
    }
}

/// Boundary, no-straddle and priority facts for the trailing open
/// segment.
#[verifier::rlimit(100)]
#[verifier::spinoff_prover]
proof fn lemma_final_meta(job: JobConfigView, vsorted: Seq<ActivityView>,
    opens: Seq<ActivityView>, frontier: int, last_end: Option<TimeOfDay>, f: ActivityView)
    requires
        all_well_formed(vsorted),
        opens.len() > 0,
        all_open(opens),
        forall|i: int| 0 <= i < opens.len()
            ==> vsorted.contains(#[trigger] opens[i]),
        forall|j: int| 0 <= j < vsorted.len()
            ==> (#[trigger] vsorted[j]).time.start.nanos <= frontier,
        forall|j: int| 0 <= j < vsorted.len()
            && (#[trigger] vsorted[j]).time.spec_effective_end().nanos > frontier
            ==> opens.contains(vsorted[j]),
        match last_end {
            Some(le) => le.nanos == frontier && end_boundary(vsorted, le.nanos as int),
            None => false,
        } || exists|i: int| 0 <= i < opens.len()
            && (#[trigger] opens[i]).time.start.nanos == frontier,
        0 <= frontier < day_max(),
        f.time.start.nanos == frontier,
        f.time.end is None,
        spec_fold_metadata(job, opens, f),
    ensures
        boundary_pt(vsorted, f.time.start.nanos as int),
        seg_fold_ok(job, vsorted, f.time, f),
        forall|j: int| 0 <= j < vsorted.len()
            ==> !(f.time.start.nanos < (#[trigger] vsorted[j]).time.start.nanos
                < f.time.spec_effective_end().nanos),
        forall|j: int| 0 <= j < vsorted.len()
            ==> match (#[trigger] vsorted[j]).time.end {
                Some(x) => !(f.time.start.nanos < x.nanos
                    < f.time.spec_effective_end().nanos),
                None => true,
            },
        unique_class_ids(job) ==> forall|j: int| 0 <= j < vsorted.len()
            && overlaps((#[trigger] vsorted[j]).time, f.time)
            ==> spec_priority_of(job, f.class) >= spec_priority_of(job, vsorted[j].class),
{
    assert(boundary_pt(vsorted, frontier)) by {
        if !(match last_end {
            Some(le) => le.nanos == frontier && end_boundary(vsorted, frontier),
            None => false,
        }) {
            let i = choose|i: int| 0 <= i < opens.len()
                && (#[trigger] opens[i]).time.start.nanos == frontier;
            assert(vsorted.contains(opens[i]));
            let j = choose|j: int| 0 <= j < vsorted.len() && vsorted[j] == opens[i];
            assert(start_boundary(vsorted, frontier));
        }
    }
    assert forall|j: int| 0 <= j < vsorted.len()
        implies match (#[trigger] vsorted[j]).time.end {
            Some(x) => !(f.time.start.nanos < x.nanos < f.time.spec_effective_end().nanos),
            None => true,
        } by {
        match vsorted[j].time.end {
            Some(x) => {
                if x.nanos > frontier {
                    assert(vsorted[j].time.spec_effective_end().nanos > frontier);
                    assert(opens.contains(vsorted[j]));
                    let i = choose|i: int| 0 <= i < opens.len() && opens[i] == vsorted[j];
                    assert(opens[i].time.end is None);
                }
            },
            None => {},
        }
    }
    if unique_class_ids(job) {
        assert forall|j: int| 0 <= j < vsorted.len()
            && overlaps((#[trigger] vsorted[j]).time, f.time)
            implies spec_priority_of(job, f.class)
                >= spec_priority_of(job, vsorted[j].class) by {
            assert(vsorted[j].time.spec_effective_end().nanos > frontier);
            assert(opens.contains(vsorted[j]));
            let i = choose|i: int| 0 <= i < opens.len() && opens[i] == vsorted[j];
            lemma_fold_class_dominates(job, opens);
            assert(spec_fold_class(job, opens).priority
                >= spec_resolved_class(job, opens[i]).priority);
            lemma_fold_class_priority_of(job, opens);
        }
    }
    reveal(seg_fold_ok);
    assert(f.time.spec_effective_end().nanos == day_max());
    assert forall|i: int| 0 <= i < opens.len()
        implies vsorted.contains(#[trigger] opens[i]) && overlaps(opens[i].time, f.time)
        by {
        assert(opens[i].time.end is None);
    }
    assert forall|j: int| 0 <= j < vsorted.len()
        && overlaps((#[trigger] vsorted[j]).time, f.time)
        implies opens.contains(vsorted[j]) by {
        assert(vsorted[j].time.spec_effective_end().nanos > frontier);
    }
    assert(seg_fold_ok(job, vsorted, f.time, f));
}

/// Sequences with equal multisets hold the same elements.
proof fn lemma_contains_equiv(a: Seq<ActivityView>, b: Seq<ActivityView>)
    requires
        a.to_multiset() == b.to_multiset(),
    ensures
        forall|x: ActivityView| a.contains(x) <==> b.contains(x),
{
    broadcast use vstd::seq_lib::group_to_multiset_ensures;

    assert forall|x: ActivityView| a.contains(x) <==> b.contains(x) by {
        assert(a.contains(x) <==> a.to_multiset().count(x) > 0);
        assert(b.contains(x) <==> b.to_multiset().count(x) > 0);
    }
}

/// Folds the currently active activities (heap and open-ended together)
/// into a report segment, skipping folds that cover no instant.
#[verifier::spinoff_prover]
fn fold_report(job_config: &JobConfig, stack: &Vec<Activity>, open_ended: &Vec<Activity>,
    start_time: Option<TimeOfDay>, end_time: Option<TimeOfDay>) -> (r: Option<Activity>)
    ensures
        ({
            let avs = act_views(stack@) + act_views(open_ended@);
            match r {
                Some(f) => spec_report_emits(avs, start_time, end_time)
                    && spec_fold_result(job_config@, avs, start_time, end_time, f@),
                None => !spec_report_emits(avs, start_time, end_time),
            }
        }),
{
    let ghost avs = act_views(stack@) + act_views(open_ended@);
    let mut all: Vec<Activity> = Vec::new();
    let mut i: usize = 0;
    while i < stack.len()
        invariant
            0 <= i <= stack@.len(),
            act_views(all@) =~= act_views(stack@).take(i as int),
        decreases stack@.len() - i,
    {
        let ghost old_all = all@;
        let d = stack[i].duplicate();
        all.push(d);
        proof {
            assert(act_views(old_all).len() == old_all.len());
            assert(old_all.len() == i as int);
            assert(all@ =~= old_all.push(d));
            assert forall|k: int| 0 <= k < all@.len()
                implies (#[trigger] act_views(all@)[k])
                    == act_views(stack@).take(i + 1)[k] by {
                assert(all@[k] == old_all.push(d)[k]);
                if k < i {
                    assert(all@[k] == old_all[k]);
                    assert(act_views(old_all)[k] == act_views(stack@).take(i as int)[k]);
                } else {
                    assert(all@[k] == d);
                    assert(d@ == stack@[i as int]@);
                }
            }
            assert(act_views(all@) =~= act_views(stack@).take(i + 1));
        }
        i = i + 1;
    }
    proof {
        assert(act_views(stack@).take(stack@.len() as int) =~= act_views(stack@));
    }
    let mut j: usize = 0;
    while j < open_ended.len()
        invariant
            0 <= j <= open_ended@.len(),
            act_views(all@) =~= act_views(stack@) + act_views(open_ended@).take(j as int),
        decreases open_ended@.len() - j,
    {
        let ghost old_all = all@;
        let d = open_ended[j].duplicate();
        all.push(d);
        proof {
            assert(act_views(old_all).len() == old_all.len());
            assert(old_all.len() == stack@.len() + j);
            assert(all@ =~= old_all.push(d));
            let rhs = act_views(stack@) + act_views(open_ended@).take(j + 1);
            assert forall|k: int| 0 <= k < all@.len()
                implies (#[trigger] act_views(all@)[k]) == rhs[k] by {
                let prev = act_views(stack@) + act_views(open_ended@).take(j as int);
                assert(all@[k] == old_all.push(d)[k]);
                if k < old_all.len() {
                    assert(all@[k] == old_all[k]);
                    assert(act_views(old_all)[k] == prev[k]);
                    if k < act_views(stack@).len() {
                        assert(prev[k] == act_views(stack@)[k]);
                        assert(rhs[k] == act_views(stack@)[k]);
                    } else {
                        assert(prev[k] == act_views(open_ended@).take(j as int)[
                            k - act_views(stack@).len()]);
                        assert(rhs[k] == act_views(open_ended@).take(j + 1)[
                            k - act_views(stack@).len()]);
                    }
                } else {
                    assert(all@[k] == d);
                    assert(d@ == open_ended@[j as int]@);
                    assert(rhs[k] == act_views(open_ended@)[j as int]);
                }
            }
            assert(act_views(all@) =~= rhs);
        }
        j = j + 1;
    }
    proof {
        assert(act_views(open_ended@).take(open_ended@.len() as int)
            =~= act_views(open_ended@));
        assert(act_views(all@) =~= avs);
    }
    let folded = Activity::fold_inner(job_config, &all, start_time, end_time);
    match folded {
        Option::Some(f) => {
            let eff = f.time.end_time_or_end_of_day();
            if f.time.start.nanos >= eff.nanos {
                proof {
                    assert(!spec_report_emits(avs, start_time, end_time));
                }
                None
            } else {
                Some(f)
            }
        },
        Option::None => {
            proof {
                assert(!spec_fold_yields(avs, start_time, end_time));
                assert(!spec_report_emits(avs, start_time, end_time));
            }
            None
        },
    }
}

/// Returns the index of an activity with the earliest effective end.
fn index_of_min_end(heap: &Vec<Activity>) -> (mi: usize)
    requires
        heap@.len() > 0,
    ensures
        0 <= mi < heap@.len(),
        forall|i: int| 0 <= i < heap@.len()
            ==> act_views(heap@)[mi as int].time.spec_effective_end().nanos
                <= (#[trigger] act_views(heap@)[i]).time.spec_effective_end().nanos,
{
    let mut mi: usize = 0;
    let mut i: usize = 1;
    while i < heap.len()
        invariant
            0 <= mi < i <= heap@.len(),
            forall|k: int| 0 <= k < i
                ==> act_views(heap@)[mi as int].time.spec_effective_end().nanos
                    <= (#[trigger] act_views(heap@)[k]).time.spec_effective_end().nanos,
        decreases heap@.len() - i,
    {
        let e_i = heap[i].time.end_time_or_end_of_day();
        let e_mi = heap[mi].time.end_time_or_end_of_day();
        if e_i.nanos < e_mi.nanos {
            mi = i;
        }
        i = i + 1;
    }
    mi
}

/// A copy of the activities, ordered by ascending start time.
#[verifier::spinoff_prover]
pub fn sort_activities_by_start(v: &Vec<Activity>) -> (r: Vec<Activity>)
    ensures
        act_views(r@).to_multiset() == act_views(v@).to_multiset(),
        sorted_by_start(act_views(r@)),
{
    let mut scratch: Vec<Activity> = Vec::new();
    let mut i: usize = 0;
    while i < v.len()
        invariant
            0 <= i <= v@.len(),
            act_views(scratch@) =~= act_views(v@).take(i as int),
        decreases v@.len() - i,
    {
        let ghost old_s = scratch@;
        let d = v[i].duplicate();
        scratch.push(d);
        proof {
            assert(act_views(old_s).len() == old_s.len());
            assert(old_s.len() == i as int);
            assert(scratch@ =~= old_s.push(d));
            assert forall|k: int| 0 <= k < scratch@.len()
                implies (#[trigger] act_views(scratch@)[k])
                    == act_views(v@).take(i + 1)[k] by {
                assert(scratch@[k] == old_s.push(d)[k]);
                if k < i {
                    assert(act_views(old_s)[k] == act_views(v@).take(i as int)[k]);
                } else {
                    assert(scratch@[k] == d);
                }
            }
            assert(act_views(scratch@) =~= act_views(v@).take(i + 1));
        }
        i = i + 1;
    }
    proof {
        broadcast use vstd::seq_lib::group_to_multiset_ensures;

        assert(act_views(v@).take(v@.len() as int) =~= act_views(v@));
        assert(act_views(scratch@) == act_views(v@));
    }
    let mut out: Vec<Activity> = Vec::new();
    proof {
        broadcast use vstd::seq_lib::group_to_multiset_ensures;

        assert(act_views(out@).to_multiset().len() == 0);
        assert(act_views(out@).to_multiset() =~= Multiset::<ActivityView>::empty());
        assert(act_views(out@).to_multiset().add(act_views(scratch@).to_multiset())
            =~= act_views(scratch@).to_multiset());
    }
    while scratch.len() > 0
        invariant
            act_views(out@).to_multiset().add(act_views(scratch@).to_multiset())
                == act_views(v@).to_multiset(),
            sorted_by_start(act_views(out@)),
            forall|p: int, q: int| 0 <= p < out@.len() && 0 <= q < scratch@.len()
                ==> (#[trigger] act_views(out@)[p]).time.start.nanos
                    <= (#[trigger] act_views(scratch@)[q]).time.start.nanos,
        decreases scratch@.len(),
    {
        let mut mi: usize = 0;
        let mut j: usize = 1;
        while j < scratch.len()
            invariant
                0 <= mi < j <= scratch@.len(),
                forall|q: int| 0 <= q < j
                    ==> act_views(scratch@)[mi as int].time.start.nanos
                        <= (#[trigger] act_views(scratch@)[q]).time.start.nanos,
            decreases scratch@.len() - j,
        {
            if scratch[j].time.start.nanos < scratch[mi].time.start.nanos {
                mi = j;
            }
            j = j + 1;
        }
        let ghost old_scratch = scratch@;
        let ghost old_out = out@;
        let x = scratch.remove(mi);
        out.push(x);
        proof {
            broadcast use vstd::seq_lib::group_to_multiset_ensures;

            assert(x == old_scratch[mi as int]);
            assert forall|k: int| 0 <= k < scratch@.len()
                implies (#[trigger] act_views(scratch@)[k])
                    == act_views(old_scratch).remove(mi as int)[k] by {
                if k < mi {
                    assert(scratch@[k] == old_scratch[k]);
                } else {
                    assert(scratch@[k] == old_scratch[k + 1]);
                }
            }
            assert(act_views(scratch@) =~= act_views(old_scratch).remove(mi as int));
            assert forall|k: int| 0 <= k < out@.len()
                implies (#[trigger] act_views(out@)[k])
                    == act_views(old_out).push(x@)[k] by {
                if k < old_out.len() {
                    assert(out@[k] == old_out[k]);
                } else {
                    assert(out@[k] == x);
                }
            }
            assert(act_views(out@) =~= act_views(old_out).push(x@));
            assert(act_views(old_scratch)[mi as int] == x@);
            assert(act_views(scratch@).to_multiset()
                =~= act_views(old_scratch).to_multiset().remove(x@));
            assert(act_views(out@).to_multiset()
                =~= act_views(old_out).to_multiset().insert(x@));
            assert(act_views(old_scratch).to_multiset().count(x@) > 0);
            assert(act_views(out@).to_multiset().add(act_views(scratch@).to_multiset())
                =~= act_views(v@).to_multiset());
            // Sorting: the extracted minimum follows everything emitted and
            // precedes everything left behind.
            assert forall|p: int, q: int| 0 <= p < q < out@.len()
                implies (#[trigger] act_views(out@)[p]).time.start.nanos
                    <= (#[trigger] act_views(out@)[q]).time.start.nanos by {
                if q < old_out.len() {
                    assert(act_views(old_out)[p] == act_views(out@)[p]);
                    assert(act_views(old_out)[q] == act_views(out@)[q]);
                } else {
                    assert(act_views(out@)[q] == x@);
                    assert(act_views(old_out)[p] == act_views(out@)[p]);
                    assert(act_views(old_out)[p].time.start.nanos
                        <= act_views(old_scratch)[mi as int].time.start.nanos);
                }
            }
            assert forall|p: int, q: int| 0 <= p < out@.len() && 0 <= q < scratch@.len()
                implies (#[trigger] act_views(out@)[p]).time.start.nanos
                    <= (#[trigger] act_views(scratch@)[q]).time.start.nanos by {
                let oq = if q < mi { q } else { q + 1 };
                assert(act_views(scratch@)[q] == act_views(old_scratch)[oq]);
                if p < old_out.len() {
                    assert(act_views(out@)[p] == act_views(old_out)[p]);
                    assert(act_views(old_out)[p].time.start.nanos
                        <= act_views(old_scratch)[oq].time.start.nanos);
                } else {
                    assert(act_views(out@)[p] == x@);
                    assert(act_views(old_scratch)[mi as int].time.start.nanos
                        <= act_views(old_scratch)[oq].time.start.nanos);
                }
            }
        }
    }
    proof {
        broadcast use vstd::seq_lib::group_to_multiset_ensures;

        assert(act_views(scratch@).to_multiset().len() == 0);
        assert(act_views(scratch@).to_multiset() =~= Multiset::<ActivityView>::empty());
        assert(act_views(out@).to_multiset()
            =~= act_views(out@).to_multiset().add(act_views(scratch@).to_multiset()));
    }
    out
}

/// Pops every active activity whose effective end has been reached: at or
/// before `bound`, or all of them when no bound is given. Each pop folds
/// the activities still running and emits the segment up to the popped
/// end.
#[verifier::spinoff_prover]
fn drain_ends(job_config: &JobConfig, heap: &mut Vec<Activity>, opens: &Vec<Activity>,
    closure: &mut Vec<Activity>, last_end: &mut Option<TimeOfDay>, bound: Option<TimeOfDay>,
    Ghost(vsorted): Ghost<Seq<ActivityView>>, Ghost(k): Ghost<int>,
    Ghost(frontier0): Ghost<int>) -> (fr: Ghost<int>)
    requires
        all_well_formed(vsorted) ==> {
            &&& sweep_inv(job_config@, vsorted, k, act_views(old(heap)@), act_views(opens@),
                act_views(old(closure)@), *old(last_end), frontier0)
            &&& frontier_reachable(act_views(old(heap)@), act_views(opens@),
                *old(last_end), frontier0)
            &&& match bound {
                Some(b) => frontier0 <= b.nanos && forall|j: int| k <= j < vsorted.len()
                    ==> (#[trigger] vsorted[j]).time.start.nanos >= b.nanos,
                None => k == vsorted.len(),
            }
        },
    ensures
        all_well_formed(vsorted) ==> {
            &&& sweep_inv(job_config@, vsorted, k, act_views(final(heap)@),
                act_views(opens@), act_views(final(closure)@), *final(last_end), fr@)
            &&& frontier_reachable(act_views(final(heap)@), act_views(opens@),
                *final(last_end), fr@)
            &&& frontier0 <= fr@
            &&& match bound {
                Some(b) => fr@ <= b.nanos && forall|i: int| 0 <= i < final(heap)@.len()
                    ==> (#[trigger] act_views(final(heap)@)[i]).time.spec_effective_end()
                        .nanos > b.nanos,
                None => final(heap)@.len() == 0,
            }
        },
{
    let ghost wf = all_well_formed(vsorted);
    let ghost mut frontier: int = frontier0;
    loop
        invariant
            wf == all_well_formed(vsorted),
            wf ==> {
                &&& sweep_inv(job_config@, vsorted, k, act_views(heap@), act_views(opens@),
                    act_views(closure@), *last_end, frontier)
                &&& frontier_reachable(act_views(heap@), act_views(opens@), *last_end,
                    frontier)
                &&& frontier0 <= frontier
                &&& match bound {
                    Some(b) => frontier <= b.nanos && forall|j: int| k <= j < vsorted.len()
                        ==> (#[trigger] vsorted[j]).time.start.nanos >= b.nanos,
                    None => k == vsorted.len(),
                }
            },
        ensures
            wf ==> {
                &&& sweep_inv(job_config@, vsorted, k, act_views(heap@), act_views(opens@),
                    act_views(closure@), *last_end, frontier)
                &&& frontier_reachable(act_views(heap@), act_views(opens@), *last_end,
                    frontier)
                &&& frontier0 <= frontier
                &&& match bound {
                    Some(b) => frontier <= b.nanos && forall|i: int| 0 <= i < heap@.len()
                        ==> (#[trigger] act_views(heap@)[i]).time.spec_effective_end()
                            .nanos > b.nanos,
                    None => heap@.len() == 0,
                }
            },
        decreases heap@.len(),
    {
        if heap.len() == 0 {
            break;
        }
        let mi = index_of_min_end(heap);
        let e_tod = heap[mi].time.end_time_or_end_of_day();
        let ghost hv = act_views(heap@);
        proof {
            if wf {
                assert(hv[mi as int].time.end is Some);
                assert(e_tod == hv[mi as int].time.spec_effective_end());
            }
        }
        match bound {
            Option::Some(b) => {
                if e_tod.nanos > b.nanos {
                    proof {
                        if wf {
                            assert forall|i: int| 0 <= i < heap@.len()
                                implies (#[trigger] act_views(heap@)[i]).time
                                    .spec_effective_end().nanos > b.nanos by {
                                assert(hv[mi as int].time.spec_effective_end().nanos
                                    <= hv[i].time.spec_effective_end().nanos);
                            }
                        }
                    }
                    break;
                }
            },
            Option::None => {},
        }
        let ghost e: int = e_tod.nanos as int;
        proof {
            if wf {
                // The popped activity is a processed, well-formed input, so
                // its end lies within the day and is an input boundary.
                let avs = act_views(heap@) + act_views(opens@);
                assert(avs[mi as int] == hv[mi as int]);
                assert(vsorted.take(k).contains(hv[mi as int]));
                let jj = choose|jj: int| 0 <= jj < vsorted.take(k).len()
                    && vsorted.take(k)[jj] == hv[mi as int];
                assert(vsorted[jj] == hv[mi as int]);
                assert(vsorted[jj].time.is_well_formed());
                assert(e <= day_max());
                assert(end_boundary(vsorted, e));
                assert(frontier <= e);
            }
        }
        let folded = fold_report(job_config, heap, opens, *last_end, Some(e_tod));
        let ghost old_closure = closure@;
        match folded {
            Option::Some(f) => {
                proof {
                    if wf {
                        assert(TimeOfDay { nanos: e as u64 } == e_tod);
                        lemma_advance(job_config@, vsorted, k, act_views(heap@),
                            act_views(opens@), act_views(closure@), *last_end, frontier, e,
                            Some(f@));
                    }
                }
                closure.push(f);
                proof {
                    if wf {
                        assert forall|i: int| 0 <= i < closure@.len()
                            implies (#[trigger] act_views(closure@)[i])
                                == act_views(old_closure).push(f@)[i] by {
                            if i < old_closure.len() {
                                assert(closure@[i] == old_closure[i]);
                            } else {
                                assert(closure@[i] == f);
                            }
                        }
                        assert(act_views(closure@) =~= act_views(old_closure).push(f@));
                    }
                }
            },
            Option::None => {
                proof {
                    if wf {
                        assert(TimeOfDay { nanos: e as u64 } == e_tod);
                        lemma_advance(job_config@, vsorted, k, act_views(heap@),
                            act_views(opens@), act_views(closure@), *last_end, frontier, e,
                            None);
                    }
                }
            },
        }
        proof {
            frontier = e;
        }
        let ghost old_heap = heap@;
        let ghost old_le = *last_end;
        *last_end = Some(e_tod);
        let _popped = heap.remove(mi);
        proof {
            if wf {
                assert forall|i: int| 0 <= i < heap@.len()
                    implies (#[trigger] act_views(heap@)[i])
                        == act_views(old_heap).remove(mi as int)[i] by {
                    if i < mi {
                        assert(heap@[i] == old_heap[i]);
                    } else {
                        assert(heap@[i] == old_heap[i + 1]);
                    }
                }
                assert(act_views(heap@) =~= act_views(old_heap).remove(mi as int));
                lemma_pop(job_config@, vsorted, k, act_views(old_heap), act_views(opens@),
                    act_views(closure@), old_le, frontier, mi as int);
                assert(*last_end == Some(TimeOfDay { nanos: frontier as u64 }));
            }
        }
    }
    Ghost(frontier)
}

/// In an ordered, positive closure every earlier segment ends no later
/// than any later segment starts.
pub proof fn lemma_ordered_separated(r: Seq<ActivityView>, i: int, j: int)
    requires
        closure_ordered(r),
        closure_positive(r),
        0 <= i < j < r.len(),
    ensures
        match r[i].time.end {
            Some(x) => x.nanos <= r[j].time.start.nanos,
            None => false,
        },
    decreases j - i,
{
    if j > i + 1 {
        lemma_ordered_separated(r, i + 1, j);
    }
}

/// How a clamped segment relates to the segment it came from.
pub open spec fn clamp_trace(out: ActivityView, orig: ActivityView, start: Option<TimeOfDay>,
    end: Option<TimeOfDay>) -> bool {
    &&& out.class == orig.class
    &&& out.name == orig.name
    &&& out.projects == orig.projects
    &&& out.description == orig.description
    &&& orig.time.start.nanos <= out.time.start.nanos
    &&& out.time.spec_effective_end().nanos <= orig.time.spec_effective_end().nanos
    &&& (out.time.start == orig.time.start || match start {
        Some(a) => out.time.start.nanos == a.nanos,
        None => false,
    })
    &&& match (out.time.end, orig.time.end) {
        (Option::Some(x), Option::Some(y)) => x == y || match end {
            Some(b) => x.nanos == b.nanos,
            None => false,
        },
        (Option::None, Option::None) => true,
        (Option::Some(x), Option::None) => match end {
            Some(b) => x.nanos == b.nanos,
            None => false,
        },
        (Option::None, Option::Some(_)) => false,
    }
}

/// Every clamped segment traces back to some segment of the unclamped
/// closure.
pub open spec fn clamp_traces(cv: Seq<ActivityView>, rv: Seq<ActivityView>,
    start: Option<TimeOfDay>, end: Option<TimeOfDay>) -> bool {
    forall|i: int| 0 <= i < rv.len() ==> exists|j: int| 0 <= j < cv.len()
        && clamp_trace(#[trigger] rv[i], cv[j], start, end)
}

/// The window clamp's running state: `rv` is the clamped form of the
/// first `i` segments of `cv`.
pub open spec fn clamp_inv(cv: Seq<ActivityView>, rv: Seq<ActivityView>, i: int,
    start: Option<TimeOfDay>, end: Option<TimeOfDay>) -> bool {
    &&& closure_positive(rv)
    &&& closure_ordered(rv)
    &&& forall|t: int| covered(rv, t) <==> (covered(cv.take(i), t) && in_window(start, end, t))
    &&& match start {
        Some(a) => forall|p: int| 0 <= p < rv.len()
            ==> (#[trigger] rv[p]).time.start.nanos >= a.nanos,
        None => true,
    }
    &&& match end {
        Some(b) => forall|p: int| 0 <= p < rv.len()
            ==> match (#[trigger] rv[p]).time.end {
                Some(x) => x.nanos <= b.nanos,
                None => b.nanos >= day_max(),
            },
        None => true,
    }
    &&& forall|p: int| 0 <= p < rv.len() ==> exists|j: int| 0 <= j < cv.len()
        && clamp_trace(#[trigger] rv[p], cv[j], start, end)
    &&& (rv.len() > 0 && i < cv.len()) ==> match rv[rv.len() - 1].time.end {
        Some(x) => x.nanos <= cv[i].time.start.nanos,
        None => false,
    }
}

/// One step of the window clamp: either the clamped copy `av` of `cv[i]`
/// joins the output, or `cv[i]` covered nothing inside the window.
#[verifier::rlimit(100)]
#[verifier::spinoff_prover]
proof fn lemma_clamp_step(cv: Seq<ActivityView>, i: int, old_rv: Seq<ActivityView>,
    av: ActivityView, keep: bool, start: Option<TimeOfDay>, end: Option<TimeOfDay>)
    requires
        closure_positive(cv),
        closure_ordered(cv),
        0 <= i < cv.len(),
        clamp_inv(cv, old_rv, i, start, end),
        forall|t: int| (cv[i].time.covers(t) && in_window(start, end, t))
            <==> (keep && av.time.covers(t)),
        keep ==> clamp_trace(av, cv[i], start, end),
        keep ==> av.time.start.nanos < av.time.spec_effective_end().nanos,
        keep ==> match start {
            Some(a) => av.time.start.nanos >= a.nanos,
            None => true,
        },
        keep ==> match end {
            Some(b) => match av.time.end {
                Some(x) => x.nanos <= b.nanos,
                None => b.nanos >= day_max(),
            },
            None => true,
        },
    ensures
        clamp_inv(cv, if keep { old_rv.push(av) } else { old_rv }, i + 1, start, end),
{
    let rv = if keep { old_rv.push(av) } else { old_rv };
    let orig = cv[i];
    if i + 1 < cv.len() {
        assert(match cv[i].time.end {
            Some(x) => x.nanos <= cv[i + 1].time.start.nanos,
            None => false,
        });
    }
    assert forall|t: int| covered(rv, t)
        <==> (covered(cv.take(i + 1), t) && in_window(start, end, t)) by {
        if covered(rv, t) {
            let p = choose|p: int| 0 <= p < rv.len() && (#[trigger] rv[p]).time.covers(t);
            if p < old_rv.len() {
                assert(old_rv[p].time.covers(t));
                assert(covered(old_rv, t));
                let q = choose|q: int| 0 <= q < cv.take(i).len()
                    && (#[trigger] cv.take(i)[q]).time.covers(t);
                assert(cv.take(i + 1)[q].time.covers(t));
            } else {
                assert(rv[p] == av && keep);
                assert(orig.time.covers(t) && in_window(start, end, t));
                assert(cv.take(i + 1)[i].time.covers(t));
            }
        }
        if covered(cv.take(i + 1), t) && in_window(start, end, t) {
            let q = choose|q: int| 0 <= q < cv.take(i + 1).len()
                && (#[trigger] cv.take(i + 1)[q]).time.covers(t);
            if q < i {
                assert(cv.take(i)[q].time.covers(t));
                assert(covered(cv.take(i), t));
                assert(covered(old_rv, t));
                let p = choose|p: int| 0 <= p < old_rv.len()
                    && (#[trigger] old_rv[p]).time.covers(t);
                assert(rv[p].time.covers(t));
            } else {
                assert(cv.take(i + 1)[q] == orig);
                assert(keep && av.time.covers(t));
                assert(rv[rv.len() - 1] == av);
            }
        }
    }
    assert forall|p: int| 0 <= p < rv.len()
        implies (#[trigger] rv[p]).time.start.nanos
            < rv[p].time.spec_effective_end().nanos by {
        if p < old_rv.len() {
            assert(rv[p] == old_rv[p]);
        } else {
            assert(rv[p] == av);
        }
    }
    assert forall|p: int| 0 <= p < rv.len() - 1
        implies match (#[trigger] rv[p]).time.end {
            Some(x) => x.nanos <= rv[p + 1].time.start.nanos,
            None => false,
        } by {
        if p < old_rv.len() - 1 {
            assert(rv[p] == old_rv[p]);
            assert(rv[p + 1] == old_rv[p + 1]);
        } else {
            assert(rv[p] == old_rv[old_rv.len() - 1]);
            assert(rv[p + 1] == av);
            assert(orig.time.start.nanos <= av.time.start.nanos);
        }
    }
    match start {
        Some(a) => {
            assert forall|p: int| 0 <= p < rv.len()
                implies (#[trigger] rv[p]).time.start.nanos >= a.nanos by {
                if p < old_rv.len() {
                    assert(rv[p] == old_rv[p]);
                } else {
                    assert(rv[p] == av);
                }
            }
        },
        None => {},
    }
    match end {
        Some(b) => {
            assert forall|p: int| 0 <= p < rv.len()
                implies match (#[trigger] rv[p]).time.end {
                    Some(x) => x.nanos <= b.nanos,
                    None => b.nanos >= day_max(),
                } by {
                if p < old_rv.len() {
                    assert(rv[p] == old_rv[p]);
                } else {
                    assert(rv[p] == av);
                }
            }
        },
        None => {},
    }
    assert forall|p: int| 0 <= p < rv.len()
        implies exists|j: int| 0 <= j < cv.len()
            && clamp_trace(#[trigger] rv[p], cv[j], start, end) by {
        if p < old_rv.len() {
            assert(rv[p] == old_rv[p]);
            let j = choose|j: int| 0 <= j < cv.len()
                && clamp_trace(#[trigger] old_rv[p], cv[j], start, end);
            assert(clamp_trace(rv[p], cv[j], start, end));
        } else {
            assert(rv[p] == av);
            assert(clamp_trace(rv[p], cv[i], start, end));
        }
    }
    if rv.len() > 0 && i + 1 < cv.len() {
        assert(match rv[rv.len() - 1].time.end {
            Some(x) => x.nanos <= cv[i + 1].time.start.nanos,
            None => false,
        }) by {
            if keep {
                assert(rv[rv.len() - 1] == av);
                match av.time.end {
                    Some(x) => {
                        // The kept end never runs past the end it came from,
                        // which the ordering bounds by the next start.
                        assert(av.time.spec_effective_end().nanos
                            <= orig.time.spec_effective_end().nanos);
                        match orig.time.end {
                            Some(y) => {
                                assert(y.nanos <= cv[i + 1].time.start.nanos);
                            },
                            None => {
                                // an open segment is the last one
                                assert(false);
                            },
                        }
                    },
                    None => {
                        match orig.time.end {
                            Some(_) => {},
                            None => {
                                assert(false);
                            },
                        }
                    },
                }
            } else {
                assert(rv[rv.len() - 1] == old_rv[old_rv.len() - 1]);
                assert(cv[i].time.start.nanos <= cv[i + 1].time.start.nanos);
            }
        }
    }
}

/// Clamps one segment to the window: dropped when entirely outside,
/// truncated at a bound it crosses.
#[verifier::spinoff_prover]
fn clamp_one(act: Activity, start: Option<TimeOfDay>, end: Option<TimeOfDay>)
    -> (r: Option<Activity>)
    ensures
        match r {
            Some(av) => {
                &&& clamp_trace(av@, act@, start, end)
                &&& (act@.time.start.nanos < act@.time.spec_effective_end().nanos
                    ==> av@.time.start.nanos < av@.time.spec_effective_end().nanos)
                &&& match start {
                    Some(a) => av@.time.start.nanos >= a.nanos,
                    None => true,
                }
                &&& match end {
                    Some(b) => match av@.time.end {
                        Some(x) => x.nanos <= b.nanos,
                        None => b.nanos >= day_max(),
                    },
                    None => true,
                }
                &&& forall|t: int| av@.time.covers(t)
                    <==> (act@.time.covers(t) && in_window(start, end, t))
            },
            None => forall|t: int| !(act@.time.covers(t) && in_window(start, end, t)),
        },
{
    let mut act = act;
    let ghost orig = act@;
    match start {
        Option::Some(a) => {
            let eff = act.time.end_time_or_end_of_day();
            if eff.nanos <= a.nanos {
                proof {
                    assert forall|t: int| !(orig.time.covers(t)
                        && in_window(start, end, t)) by {}
                }
                return None;
            }
            if act.time.start.nanos < a.nanos {
                act.time.start = a;
            }
        },
        Option::None => {},
    }
    match end {
        Option::Some(b) => {
            if act.time.start.nanos >= b.nanos {
                proof {
                    assert forall|t: int| !(orig.time.covers(t)
                        && in_window(start, end, t)) by {}
                }
                return None;
            }
            let eff = act.time.end_time_or_end_of_day();
            if eff.nanos > b.nanos {
                act.time.end = Some(b);
            }
        },
        Option::None => {},
    }
    Some(act)
}

/// Restricts a closure to the window `[start, end)`: segments entirely
/// outside are dropped, segments across a bound are truncated to it.
#[verifier::rlimit(100)]
#[verifier::spinoff_prover]
fn clamp_closure(closure: Vec<Activity>, start: Option<TimeOfDay>, end: Option<TimeOfDay>)
    -> (r: Vec<Activity>)
    ensures
        ({
            let cv = act_views(closure@);
            let rv = act_views(r@);
            (closure_positive(cv) && closure_ordered(cv)) ==> {
                &&& closure_positive(rv)
                &&& closure_ordered(rv)
                &&& forall|t: int| covered(rv, t)
                    <==> (covered(cv, t) && in_window(start, end, t))
                &&& match start {
                    Some(a) => forall|i: int| 0 <= i < rv.len()
                        ==> (#[trigger] rv[i]).time.start.nanos >= a.nanos,
                    None => true,
                }
                &&& match end {
                    Some(b) => forall|i: int| 0 <= i < rv.len()
                        ==> match (#[trigger] rv[i]).time.end {
                            Some(x) => x.nanos <= b.nanos,
                            None => b.nanos >= day_max(),
                        },
                    None => true,
                }
                &&& clamp_traces(cv, rv, start, end)
            }
        }),
{
    let ghost cv = act_views(closure@);
    let ghost ok = closure_positive(cv) && closure_ordered(cv);
    let mut result: Vec<Activity> = Vec::new();
    let mut i: usize = 0;
    while i < closure.len()
        invariant
            0 <= i <= closure@.len(),
            cv == act_views(closure@),
            ok == (closure_positive(cv) && closure_ordered(cv)),
            ok ==> clamp_inv(cv, act_views(result@), i as int, start, end),
        decreases closure@.len() - i,
    {
        let ghost orig = cv[i as int];
        let clamped = clamp_one(closure[i].duplicate(), start, end);
        let ghost old_rv = act_views(result@);
        let ghost old_res = result@;
        let ghost keep = clamped is Some;
        let ghost av: ActivityView = match &clamped {
            Some(a2) => a2@,
            None => orig,
        };
        let ghost _unused: int = 0;
        match clamped {
            Option::Some(a2) => {
                result.push(a2);
            },
            Option::None => {},
        }
        proof {
            if ok {
                let rv = act_views(result@);
                if keep {
                    assert forall|p: int| 0 <= p < rv.len()
                        implies (#[trigger] rv[p]) == old_rv.push(av)[p] by {
                        if p < old_res.len() {
                            assert(result@[p] == old_res[p]);
                        }
                    }
                    assert(rv =~= old_rv.push(av));
                } else {
                    assert(rv == old_rv);
                }
                lemma_clamp_step(cv, i as int, old_rv, av, keep, start, end);
            }
        }
        i = i + 1;
    }
    proof {
        assert(cv.take(cv.len() as int) =~= cv);
    }
    result
}

/// The promises `calculate_activity_closure` makes about its result,
/// relative to the raw input activities and the window bounds: an
/// ordered, non-overlapping, positive timeline covering exactly the
/// covered instants inside the window; every segment boundary an input
/// boundary or a window bound; no input boundary strictly inside a
/// segment; and, for a registry with unique ids, no segment ranked below
/// any input activity it overlaps.
#[verifier::opaque]
pub open spec fn closure_contract(job: JobConfigView, inp: Seq<ActivityView>,
    res: Seq<ActivityView>, start: Option<TimeOfDay>, end: Option<TimeOfDay>) -> bool {
    &&& closure_positive(res)
    &&& closure_ordered(res)
    &&& forall|t: int| covered(res, t) <==> (covered(inp, t) && in_window(start, end, t))
    &&& match start {
        Some(a) => forall|i: int| 0 <= i < res.len()
            ==> (#[trigger] res[i]).time.start.nanos >= a.nanos,
        None => true,
    }
    &&& match end {
        Some(b) => forall|i: int| 0 <= i < res.len()
            ==> match (#[trigger] res[i]).time.end {
                Some(x) => x.nanos <= b.nanos,
                None => b.nanos >= day_max(),
            },
        None => true,
    }
    &&& forall|i: int| 0 <= i < res.len()
        ==> (boundary_pt(inp, (#[trigger] res[i]).time.start.nanos as int) || match start {
            Some(a) => res[i].time.start.nanos == a.nanos,
            None => false,
        })
    &&& forall|i: int| 0 <= i < res.len() ==> match (#[trigger] res[i]).time.end {
        Some(x) => boundary_pt(inp, x.nanos as int) || match end {
            Some(b) => x.nanos == b.nanos,
            None => false,
        },
        None => true,
    }
    &&& forall|i: int, j: int| 0 <= i < res.len() && 0 <= j < inp.len()
        ==> !((#[trigger] res[i]).time.start.nanos < (#[trigger] inp[j]).time.start.nanos
            < res[i].time.spec_effective_end().nanos)
    &&& forall|i: int, j: int| 0 <= i < res.len() && 0 <= j < inp.len()
        ==> match (#[trigger] inp[j]).time.end {
            Some(x) => !((#[trigger] res[i]).time.start.nanos < x.nanos
                < res[i].time.spec_effective_end().nanos),
            None => true,
        }
    &&& unique_class_ids(job) ==> forall|i: int, j: int| 0 <= i < res.len()
        && 0 <= j < inp.len()
        && overlaps((#[trigger] inp[j]).time, (#[trigger] res[i]).time)
        ==> spec_priority_of(job, res[i].class) >= spec_priority_of(job, inp[j].class)
    // Each segment carries the fold of exactly the activities active
    // during the span it was clamped from: the class id of the fold, the
    // joined sorted distinct names, the merged sorted distinct projects.
    &&& forall|i: int| 0 <= i < res.len()
        ==> seg_clamped_fold_ok(job, inp, #[trigger] res[i], start, end)
}

/// Carries the sweep's and the clamp's facts over to the raw input order.
#[verifier::rlimit(100)]
#[verifier::spinoff_prover]
proof fn lemma_assemble(job: JobConfigView, inp: Seq<ActivityView>,
    vsorted: Seq<ActivityView>, cv: Seq<ActivityView>, rv: Seq<ActivityView>,
    start: Option<TimeOfDay>, end: Option<TimeOfDay>)
    requires
        vsorted.to_multiset() == inp.to_multiset(),
        forall|t: int| covered(cv, t) <==> covered(vsorted, t),
        closure_positive(cv),
        closure_ordered(cv),
        forall|i: int| 0 <= i < cv.len()
            ==> boundary_pt(vsorted, (#[trigger] cv[i]).time.start.nanos as int),
        forall|i: int| 0 <= i < cv.len() ==> match (#[trigger] cv[i]).time.end {
            Some(x) => boundary_pt(vsorted, x.nanos as int),
            None => true,
        },
        forall|i: int, j: int| 0 <= i < cv.len() && 0 <= j < vsorted.len()
            ==> !((#[trigger] cv[i]).time.start.nanos
                < (#[trigger] vsorted[j]).time.start.nanos
                < cv[i].time.spec_effective_end().nanos),
        forall|i: int, j: int| 0 <= i < cv.len() && 0 <= j < vsorted.len()
            ==> match (#[trigger] vsorted[j]).time.end {
                Some(x) => !((#[trigger] cv[i]).time.start.nanos < x.nanos
                    < cv[i].time.spec_effective_end().nanos),
                None => true,
            },
        unique_class_ids(job) ==> forall|i: int, j: int| 0 <= i < cv.len()
            && 0 <= j < vsorted.len()
            && overlaps((#[trigger] vsorted[j]).time, (#[trigger] cv[i]).time)
            ==> spec_priority_of(job, cv[i].class) >= spec_priority_of(job, vsorted[j].class),
        forall|i: int| 0 <= i < cv.len()
            ==> seg_fold_ok(job, vsorted, (#[trigger] cv[i]).time, cv[i]),
        closure_positive(rv),
        closure_ordered(rv),
        forall|t: int| covered(rv, t) <==> (covered(cv, t) && in_window(start, end, t)),
        match start {
            Some(a) => forall|i: int| 0 <= i < rv.len()
                ==> (#[trigger] rv[i]).time.start.nanos >= a.nanos,
            None => true,
        },
        match end {
            Some(b) => forall|i: int| 0 <= i < rv.len()
                ==> match (#[trigger] rv[i]).time.end {
                    Some(x) => x.nanos <= b.nanos,
                    None => b.nanos >= day_max(),
                },
            None => true,
        },
        clamp_traces(cv, rv, start, end),
    ensures
        closure_contract(job, inp, rv, start, end),
{
    reveal(closure_contract);
    lemma_contains_equiv(vsorted, inp);
    assert forall|t: int| covered(vsorted, t) <==> covered(inp, t) by {
        if covered(vsorted, t) {
            let i = choose|i: int| 0 <= i < vsorted.len()
                && (#[trigger] vsorted[i]).time.covers(t);
            assert(vsorted.contains(vsorted[i]));
            assert(inp.contains(vsorted[i]));
            let j = choose|j: int| 0 <= j < inp.len() && inp[j] == vsorted[i];
        }
        if covered(inp, t) {
            let i = choose|i: int| 0 <= i < inp.len() && (#[trigger] inp[i]).time.covers(t);
            assert(inp.contains(inp[i]));
            assert(vsorted.contains(inp[i]));
            let j = choose|j: int| 0 <= j < vsorted.len() && vsorted[j] == inp[i];
        }
    }
    assert forall|x: int| boundary_pt(vsorted, x) implies boundary_pt(inp, x) by {
        if start_boundary(vsorted, x) {
            let k = choose|k: int| 0 <= k < vsorted.len()
                && (#[trigger] vsorted[k]).time.start.nanos == x;
            assert(inp.contains(vsorted[k]));
            let j = choose|j: int| 0 <= j < inp.len() && inp[j] == vsorted[k];
            assert(start_boundary(inp, x));
        }
        if end_boundary(vsorted, x) {
            let k = choose|k: int| 0 <= k < vsorted.len() && match (#[trigger] vsorted[k])
                .time.end {
                Some(e) => e.nanos == x,
                None => false,
            };
            assert(inp.contains(vsorted[k]));
            let j = choose|j: int| 0 <= j < inp.len() && inp[j] == vsorted[k];
            assert(end_boundary(inp, x));
        }
    }
    assert forall|i: int| 0 <= i < rv.len()
        implies (boundary_pt(inp, (#[trigger] rv[i]).time.start.nanos as int) || match start {
            Some(a) => rv[i].time.start.nanos == a.nanos,
            None => false,
        }) by {
        let j = choose|j: int| 0 <= j < cv.len()
            && clamp_trace(#[trigger] rv[i], cv[j], start, end);
        if rv[i].time.start == cv[j].time.start {
            assert(boundary_pt(vsorted, rv[i].time.start.nanos as int));
        }
    }
    assert forall|i: int| 0 <= i < rv.len()
        implies match (#[trigger] rv[i]).time.end {
            Some(x) => boundary_pt(inp, x.nanos as int) || match end {
                Some(b) => x.nanos == b.nanos,
                None => false,
            },
            None => true,
        } by {
        let j = choose|j: int| 0 <= j < cv.len()
            && clamp_trace(#[trigger] rv[i], cv[j], start, end);
        match (rv[i].time.end, cv[j].time.end) {
            (Option::Some(x), Option::Some(y)) => {
                if x == y {
                    assert(boundary_pt(vsorted, x.nanos as int));
                }
            },
            _ => {},
        }
    }
    assert forall|i: int, j: int| 0 <= i < rv.len() && 0 <= j < inp.len()
        implies !((#[trigger] rv[i]).time.start.nanos < (#[trigger] inp[j]).time.start.nanos
            < rv[i].time.spec_effective_end().nanos) by {
        let jj = choose|jj: int| 0 <= jj < cv.len()
            && clamp_trace(#[trigger] rv[i], cv[jj], start, end);
        assert(vsorted.contains(inp[j]));
        let k = choose|k: int| 0 <= k < vsorted.len() && vsorted[k] == inp[j];
        assert(!(cv[jj].time.start.nanos < vsorted[k].time.start.nanos
            < cv[jj].time.spec_effective_end().nanos));
    }
    assert forall|i: int, j: int| 0 <= i < rv.len() && 0 <= j < inp.len()
        implies match (#[trigger] inp[j]).time.end {
            Some(x) => !((#[trigger] rv[i]).time.start.nanos < x.nanos
                < rv[i].time.spec_effective_end().nanos),
            None => true,
        } by {
        let jj = choose|jj: int| 0 <= jj < cv.len()
            && clamp_trace(#[trigger] rv[i], cv[jj], start, end);
        assert(vsorted.contains(inp[j]));
        let k = choose|k: int| 0 <= k < vsorted.len() && vsorted[k] == inp[j];
        assert(match vsorted[k].time.end {
            Some(x) => !(cv[jj].time.start.nanos < x.nanos
                < cv[jj].time.spec_effective_end().nanos),
            None => true,
        });
    }
    if unique_class_ids(job) {
        assert forall|i: int, j: int| 0 <= i < rv.len() && 0 <= j < inp.len()
            && overlaps((#[trigger] inp[j]).time, (#[trigger] rv[i]).time)
            implies spec_priority_of(job, rv[i].class)
                >= spec_priority_of(job, inp[j].class) by {
            let jj = choose|jj: int| 0 <= jj < cv.len()
                && clamp_trace(#[trigger] rv[i], cv[jj], start, end);
            assert(vsorted.contains(inp[j]));
            let k = choose|k: int| 0 <= k < vsorted.len() && vsorted[k] == inp[j];
            assert(overlaps(vsorted[k].time, cv[jj].time));
            assert(rv[i].class == cv[jj].class);
        }
    }
    lemma_assemble_metadata(job, inp, vsorted, cv, rv, start, end);
}

/// Each clamped segment still carries the fold of its uncut span: the
/// contributors are unchanged, and membership carries over to the raw
/// input order.
#[verifier::rlimit(100)]
#[verifier::spinoff_prover]
proof fn lemma_assemble_metadata(job: JobConfigView, inp: Seq<ActivityView>,
    vsorted: Seq<ActivityView>, cv: Seq<ActivityView>, rv: Seq<ActivityView>,
    start: Option<TimeOfDay>, end: Option<TimeOfDay>)
    requires
        vsorted.to_multiset() == inp.to_multiset(),
        forall|i: int| 0 <= i < cv.len()
            ==> seg_fold_ok(job, vsorted, (#[trigger] cv[i]).time, cv[i]),
        clamp_traces(cv, rv, start, end),
    ensures
        forall|i: int| 0 <= i < rv.len()
            ==> seg_clamped_fold_ok(job, inp, #[trigger] rv[i], start, end),
{
    reveal(seg_fold_ok);
    lemma_contains_equiv(vsorted, inp);
    assert forall|i: int| 0 <= i < rv.len()
        implies seg_clamped_fold_ok(job, inp, #[trigger] rv[i], start, end) by {
        let jj = choose|jj: int| 0 <= jj < cv.len()
            && clamp_trace(#[trigger] rv[i], cv[jj], start, end);
        let iv = cv[jj].time;
        assert(clamp_iv(iv, rv[i].time, start, end));
        assert(seg_fold_ok(job, vsorted, iv, cv[jj]));
        let contribs = choose|contribs: Seq<ActivityView>| {
            &&& #[trigger] spec_fold_metadata(job, contribs, cv[jj])
            &&& forall|p: int| 0 <= p < contribs.len()
                ==> vsorted.contains(#[trigger] contribs[p])
                    && overlaps(contribs[p].time, iv)
            &&& forall|k: int| 0 <= k < vsorted.len()
                && overlaps((#[trigger] vsorted[k]).time, iv)
                ==> contribs.contains(vsorted[k])
        };
        assert(rv[i].class == cv[jj].class && rv[i].name == cv[jj].name
            && rv[i].projects == cv[jj].projects
            && rv[i].description == cv[jj].description);
        assert(spec_fold_metadata(job, contribs, rv[i]));
        assert forall|p: int| 0 <= p < contribs.len()
            implies inp.contains(#[trigger] contribs[p])
                && overlaps(contribs[p].time, iv) by {
            assert(vsorted.contains(contribs[p]));
        }
        assert forall|k: int| 0 <= k < inp.len()
            && overlaps((#[trigger] inp[k]).time, iv)
            implies contribs.contains(inp[k]) by {
            assert(vsorted.contains(inp[k]));
            let k2 = choose|k2: int| 0 <= k2 < vsorted.len() && vsorted[k2] == inp[k];
        }
        assert(seg_fold_ok(job, inp, iv, rv[i]));
        assert(seg_clamped_fold_ok(job, inp, rv[i], start, end));
    }
}


/// Well-formedness carries over to any rearrangement of the input.
proof fn lemma_wf_transfer(vsorted: Seq<ActivityView>, inp: Seq<ActivityView>)
    requires
        vsorted.to_multiset() == inp.to_multiset(),
        all_well_formed(inp),
    ensures
        all_well_formed(vsorted),
{
    lemma_contains_equiv(vsorted, inp);
    assert forall|i: int| 0 <= i < vsorted.len()
        implies (#[trigger] vsorted[i]).time.is_well_formed() by {
        assert(vsorted.contains(vsorted[i]));
        assert(inp.contains(vsorted[i]));
        let j = choose|j: int| 0 <= j < inp.len() && inp[j] == vsorted[i];
    }
}

/// The sweep's starting state: nothing processed, nothing active, nothing
/// emitted, the frontier at the day's first instant.
proof fn lemma_sweep_init(job: JobConfigView, vsorted: Seq<ActivityView>)
    ensures
        sweep_inv(job, vsorted, 0, Seq::<ActivityView>::empty(),
            Seq::<ActivityView>::empty(), Seq::<ActivityView>::empty(), None, 0),
        frontier_reachable(Seq::<ActivityView>::empty(), Seq::<ActivityView>::empty(),
            None, 0),
{
    assert(vsorted.take(0) =~= Seq::<ActivityView>::empty());
    assert((Seq::<ActivityView>::empty() + Seq::<ActivityView>::empty()).len() == 0);
}

/// With an empty window nothing is in range, and an empty result
/// satisfies the contract.
proof fn lemma_empty_window_contract(job: JobConfigView, inp: Seq<ActivityView>,
    res: Seq<ActivityView>, start: Option<TimeOfDay>, end: Option<TimeOfDay>)
    requires
        res.len() == 0,
        match (start, end) {
            (Option::Some(a), Option::Some(b)) => a.nanos >= b.nanos,
            _ => false,
        },
    ensures
        closure_contract(job, inp, res, start, end),
{
    reveal(closure_contract);
    assert forall|t: int| !in_window(start, end, t) by {}
}

/// Drains the remaining closed activities and folds the trailing
/// open-ended ones; afterwards the closure is complete.
#[verifier::rlimit(100)]
#[verifier::spinoff_prover]
fn finish_sweep(job_config: &JobConfig, heap: &mut Vec<Activity>, opens: &Vec<Activity>,
    closure: &mut Vec<Activity>, last_end: &mut Option<TimeOfDay>,
    Ghost(vsorted): Ghost<Seq<ActivityView>>, Ghost(frontier0): Ghost<int>)
    requires
        all_well_formed(vsorted) ==> {
            &&& sweep_inv(job_config@, vsorted, vsorted.len() as int,
                act_views(old(heap)@), act_views(opens@), act_views(old(closure)@),
                *old(last_end), frontier0)
            &&& frontier_reachable(act_views(old(heap)@), act_views(opens@),
                *old(last_end), frontier0)
        },
    ensures
        all_well_formed(vsorted) ==> {
            let closure2 = act_views(final(closure)@);
            &&& forall|t: int| covered(closure2, t) <==> covered(vsorted, t)
            &&& closure_positive(closure2)
            &&& closure_ordered(closure2)
            &&& forall|i: int| 0 <= i < closure2.len()
                ==> boundary_pt(vsorted, (#[trigger] closure2[i]).time.start.nanos as int)
            &&& forall|i: int| 0 <= i < closure2.len()
                ==> match (#[trigger] closure2[i]).time.end {
                    Some(x) => boundary_pt(vsorted, x.nanos as int),
                    None => true,
                }
            &&& forall|i: int, j: int| 0 <= i < closure2.len() && 0 <= j < vsorted.len()
                ==> !((#[trigger] closure2[i]).time.start.nanos
                    < (#[trigger] vsorted[j]).time.start.nanos
                    < closure2[i].time.spec_effective_end().nanos)
            &&& forall|i: int, j: int| 0 <= i < closure2.len() && 0 <= j < vsorted.len()
                ==> match (#[trigger] vsorted[j]).time.end {
                    Some(x) => !((#[trigger] closure2[i]).time.start.nanos < x.nanos
                        < closure2[i].time.spec_effective_end().nanos),
                    None => true,
                }
            &&& unique_class_ids(job_config@) ==> forall|i: int, j: int|
                0 <= i < closure2.len() && 0 <= j < vsorted.len()
                && overlaps((#[trigger] vsorted[j]).time, (#[trigger] closure2[i]).time)
                ==> spec_priority_of(job_config@, closure2[i].class)
                    >= spec_priority_of(job_config@, vsorted[j].class)
            &&& forall|i: int| 0 <= i < closure2.len()
                ==> seg_fold_ok(job_config@, vsorted, (#[trigger] closure2[i]).time,
                    closure2[i])
        },
{
    let ghost wf = all_well_formed(vsorted);
    let ghost mut frontier: int = frontier0;
        let fr = drain_ends(job_config, heap, opens, closure, last_end,
            None, Ghost(vsorted), Ghost(vsorted.len() as int), Ghost(frontier));
        proof {
            frontier = fr@;
        }
        let ghost pre_final = act_views(closure@);
        let ghost opens_v = act_views(opens@);
        let ghost emitted: Option<ActivityView>;
        proof {
            if wf {
                assert(act_views(heap@).len() == 0);
                assert(act_views(heap@) =~= Seq::<ActivityView>::empty());
                assert(act_views(heap@) + opens_v =~= opens_v);
            }
        }
        if opens.len() > 0 {
            let folded = fold_report(job_config, heap, opens, *last_end, None);
            let ghost old_closure = closure@;
            match folded {
                Option::Some(f) => {
                    proof {
                        emitted = Some(f@);
                    }
                    closure.push(f);
                    proof {
                        if wf {
                            assert forall|p: int| 0 <= p < closure@.len()
                                implies (#[trigger] act_views(closure@)[p])
                                    == act_views(old_closure).push(f@)[p] by {
                                if p < old_closure.len() {
                                    assert(closure@[p] == old_closure[p]);
                                } else {
                                    assert(closure@[p] == f);
                                }
                            }
                            assert(act_views(closure@) =~= act_views(old_closure).push(f@));
                        }
                    }
                },
                Option::None => {
                    proof {
                        emitted = None;
                    }
                },
            }
        } else {
            proof {
                emitted = None;
            }
        }
        proof {
            if wf {
                lemma_finish(job_config@, vsorted, opens_v, pre_final,
                    act_views(closure@), *last_end, frontier, emitted);
            }
        }
}


/// Runs the sweep over a copy of the input sorted by start time and
/// returns the unclamped closure, together with the sorted mathematical
/// view it was proved against.
#[verifier::rlimit(100)]
#[verifier::spinoff_prover]
fn build_closure(job_config: &JobConfig, activities: &Vec<Activity>)
    -> (r: (Vec<Activity>, Ghost<Seq<ActivityView>>))
    ensures
        ({
            let cv = act_views(r.0@);
            let vsorted = r.1@;
            &&& vsorted.to_multiset() == act_views(activities@).to_multiset()
            &&& all_well_formed(act_views(activities@)) ==> {
                &&& forall|t: int| covered(cv, t) <==> covered(vsorted, t)
                &&& closure_positive(cv)
                &&& closure_ordered(cv)
                &&& forall|i: int| 0 <= i < cv.len()
                    ==> boundary_pt(vsorted, (#[trigger] cv[i]).time.start.nanos as int)
                &&& forall|i: int| 0 <= i < cv.len() ==> match (#[trigger] cv[i]).time.end {
                    Some(x) => boundary_pt(vsorted, x.nanos as int),
                    None => true,
                }
                &&& forall|i: int, j: int| 0 <= i < cv.len() && 0 <= j < vsorted.len()
                    ==> !((#[trigger] cv[i]).time.start.nanos
                        < (#[trigger] vsorted[j]).time.start.nanos
                        < cv[i].time.spec_effective_end().nanos)
                &&& forall|i: int, j: int| 0 <= i < cv.len() && 0 <= j < vsorted.len()
                    ==> match (#[trigger] vsorted[j]).time.end {
                        Some(x) => !((#[trigger] cv[i]).time.start.nanos < x.nanos
                            < cv[i].time.spec_effective_end().nanos),
                        None => true,
                    }
                &&& unique_class_ids(job_config@) ==> forall|i: int, j: int|
                    0 <= i < cv.len() && 0 <= j < vsorted.len()
                    && overlaps((#[trigger] vsorted[j]).time, (#[trigger] cv[i]).time)
                    ==> spec_priority_of(job_config@, cv[i].class)
                        >= spec_priority_of(job_config@, vsorted[j].class)
                &&& forall|i: int| 0 <= i < cv.len()
                    ==> seg_fold_ok(job_config@, vsorted, (#[trigger] cv[i]).time, cv[i])
            }
        }),
{
    let ghost inp = act_views(activities@);
    let sorted = sort_activities_by_start(activities);
    let ghost vsorted = act_views(sorted@);
    proof {
        if all_well_formed(inp) {
            lemma_wf_transfer(vsorted, inp);
        }
    }
    let ghost wfv = all_well_formed(vsorted);
    let mut closure: Vec<Activity> = Vec::new();
    let mut heap: Vec<Activity> = Vec::new();
    let mut opens: Vec<Activity> = Vec::new();
    let mut last_end: Option<TimeOfDay> = None;
    let ghost mut frontier: int = 0;
    proof {
        lemma_sweep_init(job_config@, vsorted);
        assert(act_views(closure@) =~= Seq::<ActivityView>::empty());
        assert(act_views(heap@) =~= Seq::<ActivityView>::empty());
        assert(act_views(opens@) =~= Seq::<ActivityView>::empty());
    }
    let mut idx: usize = 0;
    while idx < sorted.len()
        invariant
            0 <= idx <= sorted@.len(),
            vsorted == act_views(sorted@),
            sorted_by_start(vsorted),
            wfv == all_well_formed(vsorted),
            wfv ==> sweep_inv(job_config@, vsorted, idx as int, act_views(heap@),
                act_views(opens@), act_views(closure@), last_end, frontier),
            wfv ==> frontier_reachable(act_views(heap@), act_views(opens@), last_end,
                frontier),
        decreases sorted@.len() - idx,
    {
        let a_start = sorted[idx].time.start;
        proof {
            if wfv {
                assert(vsorted[idx as int].time.start.nanos >= frontier);
                assert forall|j: int| idx <= j < vsorted.len()
                    implies (#[trigger] vsorted[j]).time.start.nanos >= a_start.nanos
                    by {
                    assert(vsorted[idx as int].time.start.nanos
                        <= vsorted[j].time.start.nanos);
                }
            }
        }
        let fr = drain_ends(job_config, &mut heap, &opens, &mut closure, &mut last_end,
            Some(a_start), Ghost(vsorted), Ghost(idx as int), Ghost(frontier));
        proof {
            frontier = fr@;
        }
        let folded = fold_report(job_config, &heap, &opens, last_end, Some(a_start));
        let ghost e: int = a_start.nanos as int;
        let ghost old_closure = closure@;
        proof {
            if wfv {
                assert(vsorted[idx as int].time.is_well_formed());
                assert(e <= day_max());
                assert(start_boundary(vsorted, e));
                assert(TimeOfDay { nanos: e as u64 } == a_start);
            }
        }
        match folded {
            Option::Some(f) => {
                proof {
                    if wfv {
                        lemma_advance(job_config@, vsorted, idx as int,
                            act_views(heap@), act_views(opens@), act_views(closure@),
                            last_end, frontier, e, Some(f@));
                    }
                }
                closure.push(f);
                proof {
                    if wfv {
                        assert forall|p: int| 0 <= p < closure@.len()
                            implies (#[trigger] act_views(closure@)[p])
                                == act_views(old_closure).push(f@)[p] by {
                            if p < old_closure.len() {
                                assert(closure@[p] == old_closure[p]);
                            } else {
                                assert(closure@[p] == f);
                            }
                        }
                        assert(act_views(closure@) =~= act_views(old_closure).push(f@));
                    }
                }
            },
            Option::None => {
                proof {
                    if wfv {
                        lemma_advance(job_config@, vsorted, idx as int,
                            act_views(heap@), act_views(opens@), act_views(closure@),
                            last_end, frontier, e, None);
                    }
                }
            },
        }
        proof {
            frontier = e;
        }
        let ghost old_heap = heap@;
        let ghost old_opens = opens@;
        let dup = sorted[idx].duplicate();
        let is_complete = sorted[idx].time.is_complete();
        if is_complete {
            heap.push(dup);
        } else {
            opens.push(dup);
        }
        proof {
            if wfv {
                if is_complete {
                    assert forall|p: int| 0 <= p < heap@.len()
                        implies (#[trigger] act_views(heap@)[p])
                            == act_views(old_heap).push(vsorted[idx as int])[p] by {
                        if p < old_heap.len() {
                            assert(heap@[p] == old_heap[p]);
                        } else {
                            assert(heap@[p] == dup);
                        }
                    }
                    assert(act_views(heap@)
                        =~= act_views(old_heap).push(vsorted[idx as int]));
                } else {
                    assert forall|p: int| 0 <= p < opens@.len()
                        implies (#[trigger] act_views(opens@)[p])
                            == act_views(old_opens).push(vsorted[idx as int])[p] by {
                        if p < old_opens.len() {
                            assert(opens@[p] == old_opens[p]);
                        } else {
                            assert(opens@[p] == dup);
                        }
                    }
                    assert(act_views(opens@)
                        =~= act_views(old_opens).push(vsorted[idx as int]));
                }
                lemma_insert(job_config@, vsorted, idx as int, act_views(old_heap),
                    act_views(old_opens), act_views(closure@), last_end, frontier);
            }
        }
        idx = idx + 1;
    }
    finish_sweep(job_config, &mut heap, &opens, &mut closure, &mut last_end,
        Ghost(vsorted), Ghost(frontier));
    (closure, Ghost(vsorted))
}

impl Activity {
    /// Sweeps a day's activities in start order, folding every maximal set
    /// of concurrently active activities into one segment per boundary:
    /// the result is an ordered, non-overlapping timeline of synthesized
    /// activities, optionally clamped to the window `[start, end)`.
    /// Well-formed input (ends not before starts) is expected but not
    /// required; the stated guarantees assume it.
    #[verifier::rlimit(100)]
    #[verifier::spinoff_prover]
    pub fn calculate_activity_closure(job_config: &JobConfig, activities: &Vec<Activity>,
        start: Option<TimeOfDay>, end: Option<TimeOfDay>) -> (r: Vec<Activity>)
        ensures
            all_well_formed(act_views(activities@)) ==> closure_contract(job_config@,
                act_views(activities@), act_views(r@), start, end),
    {
        let ghost inp = act_views(activities@);
        match (start, end) {
            (Option::Some(s0), Option::Some(e0)) => {
                if s0.nanos >= e0.nanos {
                    let empty: Vec<Activity> = Vec::new();
                    proof {
                        lemma_empty_window_contract(job_config@, inp, act_views(empty@),
                            start, end);
                    }
                    return empty;
                }
            },
            _ => {},
        }
        let (closure, vsorted_g) = build_closure(job_config, activities);
        let ghost vsorted = vsorted_g@;
        let ghost cv = act_views(closure@);
        proof {
            if all_well_formed(inp) {
                assert(closure_positive(cv));
                assert(closure_ordered(cv));
            }
        }
        let result = clamp_closure(closure, start, end);
        proof {
            if all_well_formed(inp) {
                lemma_assemble(job_config@, inp, vsorted, cv, act_views(result@), start,
                    end);
            }
        }
        result
    }
}

/// A segment whose span is covered by copies of exactly one input
/// activity carries that input's name, and the fold of that one class.
#[verifier::rlimit(100)]
#[verifier::spinoff_prover]
proof fn lemma_single_contributor_metadata(job: JobConfigView, inp: Seq<ActivityView>,
    iv: Interval, f: ActivityView, j: int)
    requires
        seg_fold_ok(job, inp, iv, f),
        0 <= j < inp.len(),
        overlaps(inp[j].time, iv),
        forall|k: int| 0 <= k < inp.len() && overlaps((#[trigger] inp[k]).time, iv)
            ==> inp[k] == inp[j],
    ensures
        f.name == inp[j].name,
        f.class == IdentifierView::Uuid((if spec_resolved_class(job, inp[j]).priority
            > spec_lowest(job).priority {
            spec_resolved_class(job, inp[j])
        } else {
            spec_lowest(job)
        }).id),
{
    reveal(seg_fold_ok);
    let contribs = choose|contribs: Seq<ActivityView>| {
        &&& #[trigger] spec_fold_metadata(job, contribs, f)
        &&& forall|p: int| 0 <= p < contribs.len()
            ==> inp.contains(#[trigger] contribs[p]) && overlaps(contribs[p].time, iv)
        &&& forall|k: int| 0 <= k < inp.len() && overlaps((#[trigger] inp[k]).time, iv)
            ==> contribs.contains(inp[k])
    };
    assert(contribs.contains(inp[j]));
    assert(contribs.len() > 0);
    assert forall|p: int| 0 <= p < contribs.len() implies #[trigger] contribs[p] == inp[j]
        by {
        assert(inp.contains(contribs[p]));
        let k = choose|k: int| 0 <= k < inp.len() && inp[k] == contribs[p];
    }
    lemma_fold_class_constant(job, contribs, inp[j]);
    match inp[j].name {
        Some(n0) => {
            assert(spec_name_set(contribs).contains(n0)) by {
                let q = choose|q: int| 0 <= q < contribs.len() && contribs[q] == inp[j];
                assert(contribs[q].name == Some(n0));
            }
            match f.name {
                Some(n) => {
                    let parts = choose|parts: Seq<Seq<char>>| {
                        &&& #[trigger] sorted_distinct_seqs(parts)
                        &&& set_of_seqs(parts) =~= spec_name_set(contribs)
                        &&& n == join_sep(parts, "; "@)
                    };
                    let single = seq![n0];
                    assert(sorted_distinct_seqs(single));
                    assert(set_of_seqs(single) =~= spec_name_set(contribs)) by {
                        assert(single[0] == n0);
                        assert(single.contains(n0));
                        assert forall|x: Seq<char>| spec_name_set(contribs).contains(x)
                            implies single.contains(x) by {
                            let q = choose|q: int| 0 <= q < contribs.len()
                                && #[trigger] contribs[q].name == Some(x);
                        }
                    }
                    crate::text::lemma_sorted_distinct_seqs_unique(parts, single);
                    assert(n == join_sep(single, "; "@));
                    assert(join_sep(single, "; "@) == n0);
                },
                None => {
                    assert(spec_name_set(contribs) =~= Set::<Seq<char>>::empty());
                },
            }
        },
        None => {
            match f.name {
                Some(_) => {
                    assert(!(spec_name_set(contribs) =~= Set::<Seq<char>>::empty()));
                    let x = choose|x: Seq<char>| spec_name_set(contribs).contains(x);
                    let q = choose|q: int| 0 <= q < contribs.len()
                        && #[trigger] contribs[q].name == Some(x);
                    assert(contribs[q] == inp[j]);
                },
                None => {},
            }
        },
    }
}

/// The folded class of any number of copies of one activity: its resolved
/// class when that outranks the lowest-priority class, else the lowest.
proof fn lemma_fold_class_constant(job: JobConfigView, s: Seq<ActivityView>, a: ActivityView)
    requires
        s.len() > 0,
        forall|i: int| 0 <= i < s.len() ==> #[trigger] s[i] == a,
    ensures
        spec_fold_class(job, s) == if spec_resolved_class(job, a).priority
            > spec_lowest(job).priority {
            spec_resolved_class(job, a)
        } else {
            spec_lowest(job)
        },
    decreases s.len(),
{
    if s.len() == 1 {
        assert(s.drop_last().len() == 0);
        assert(s.last() == a);
    } else {
        assert forall|i: int| 0 <= i < s.drop_last().len()
            implies #[trigger] s.drop_last()[i] == a by {
            assert(s.drop_last()[i] == s[i]);
        }
        lemma_fold_class_constant(job, s.drop_last(), a);
        assert(s.last() == a);
    }
}

/// Coverage is exact and unique: an instant covered by at least one input
/// activity and lying in the window is covered by exactly one segment of
/// the closure; any other instant by none.
pub proof fn lemma_coverage_exactly_once(job: JobConfigView, inp: Seq<ActivityView>,
    res: Seq<ActivityView>, start: Option<TimeOfDay>, end: Option<TimeOfDay>, t: int)
    requires
        closure_contract(job, inp, res, start, end),
    ensures
        (covered(inp, t) && in_window(start, end, t)) <==> covered(res, t),
        forall|i: int, j: int| 0 <= i < j < res.len() && (#[trigger] res[i]).time.covers(t)
            ==> !(#[trigger] res[j]).time.covers(t),
{
    reveal(closure_contract);
    assert forall|i: int, j: int| 0 <= i < j < res.len()
        && (#[trigger] res[i]).time.covers(t)
        implies !(#[trigger] res[j]).time.covers(t) by {
        if res[j].time.covers(t) {
            lemma_ordered_separated(res, i, j);
        }
    }
}

/// An empty input yields an empty closure.
pub proof fn lemma_closure_of_empty(job: JobConfigView, inp: Seq<ActivityView>,
    res: Seq<ActivityView>, start: Option<TimeOfDay>, end: Option<TimeOfDay>)
    requires
        closure_contract(job, inp, res, start, end),
        inp.len() == 0,
    ensures
        res.len() == 0,
{
    reveal(closure_contract);
    if res.len() > 0 {
        let t = res[0].time.start.nanos as int;
        assert(res[0].time.covers(t));
        assert(covered(res, t));
        assert(covered(inp, t));
        let k = choose|k: int| 0 <= k < inp.len() && (#[trigger] inp[k]).time.covers(t);
    }
}

/// A single open-ended activity, with no window given, yields exactly one
/// open trailing segment starting where the activity starts. (An open
/// activity starting at the day's very last instant covers nothing and is
/// excluded: it yields an empty closure.)
#[verifier::rlimit(100)]
#[verifier::spinoff_prover]
pub proof fn lemma_closure_of_single_open(job: JobConfigView, inp: Seq<ActivityView>,
    res: Seq<ActivityView>)
    requires
        closure_contract(job, inp, res, None, None),
        inp.len() == 1,
        inp[0].time.end is None,
        inp[0].time.start.nanos < day_max(),
    ensures
        res.len() == 1,
        res[0].time.start == inp[0].time.start,
        res[0].time.end is None,
        res[0].name == inp[0].name,
        res[0].class == IdentifierView::Uuid((if spec_resolved_class(job, inp[0]).priority
            > spec_lowest(job).priority {
            spec_resolved_class(job, inp[0])
        } else {
            spec_lowest(job)
        }).id),
{
    reveal(closure_contract);
    let s = inp[0].time.start.nanos as int;
    assert(inp[0].time.covers(s));
    assert(covered(inp, s));
    assert(in_window(None, None, s));
    assert(covered(res, s));
    let i = choose|i: int| 0 <= i < res.len() && (#[trigger] res[i]).time.covers(s);
    // Every segment starts at or after the activity's start.
    assert forall|p: int| 0 <= p < res.len()
        implies (#[trigger] res[p]).time.start.nanos >= s by {
        let tp = res[p].time.start.nanos as int;
        assert(res[p].time.covers(tp));
        assert(covered(res, tp));
        assert(covered(inp, tp));
        let k = choose|k: int| 0 <= k < inp.len() && (#[trigger] inp[k]).time.covers(tp);
    }
    // The segment covering the start is the first one and begins exactly
    // there.
    assert(res[i].time.start.nanos == s);
    if i > 0 {
        lemma_ordered_separated(res, 0, i);
        assert(res[0].time.start.nanos < res[0].time.spec_effective_end().nanos);
    }
    assert(i == 0);
    // Its end can only be open: a defined end would have to be an input
    // boundary, and the only one is the start itself.
    match res[0].time.end {
        Some(x) => {
            assert(boundary_pt(inp, x.nanos as int) || false);
            if start_boundary(inp, x.nanos as int) {
                let k = choose|k: int| 0 <= k < inp.len()
                    && (#[trigger] inp[k]).time.start.nanos == x.nanos;
                assert(x.nanos == s);
                assert(res[0].time.start.nanos < res[0].time.spec_effective_end().nanos);
            }
            if end_boundary(inp, x.nanos as int) {
                let k = choose|k: int| 0 <= k < inp.len() && match (#[trigger] inp[k]).time
                    .end {
                    Some(e) => e.nanos == x.nanos,
                    None => false,
                };
            }
        },
        None => {},
    }
    // A second segment would force the first to be closed.
    if res.len() > 1 {
        assert(match res[0].time.end {
            Some(_) => true,
            None => false,
        });
    }
    // The segment's metadata: its span is its own (no window), and the
    // only activity covering it is the input, so the fold it carries is
    // the fold of copies of that input.
    assert(seg_clamped_fold_ok(job, inp, res[0], None, None));
    let iv = choose|iv: Interval| #[trigger] clamp_iv(iv, res[0].time, None, None)
        && seg_fold_ok(job, inp, iv, res[0]);
    assert(iv == res[0].time);
    assert(overlaps(inp[0].time, iv));
    lemma_single_contributor_metadata(job, inp, iv, res[0], 0);
}


/// After the drain and the trailing fold, the emitted closure satisfies
/// every per-sweep guarantee relative to the sorted input.
#[verifier::rlimit(100)]
#[verifier::spinoff_prover]
proof fn lemma_finish(job: JobConfigView, vsorted: Seq<ActivityView>,
    opens_v: Seq<ActivityView>, pre_final: Seq<ActivityView>, closure2: Seq<ActivityView>,
    last_end: Option<TimeOfDay>, frontier: int, emitted: Option<ActivityView>)
    requires
        all_well_formed(vsorted),
        sweep_inv(job, vsorted, vsorted.len() as int, Seq::<ActivityView>::empty(), opens_v,
            pre_final, last_end, frontier),
        frontier_reachable(Seq::<ActivityView>::empty(), opens_v, last_end, frontier),
        ({
            let avs = Seq::<ActivityView>::empty() + opens_v;
            match emitted {
                Some(f) => spec_report_emits(avs, last_end, None)
                    && spec_fold_result(job, avs, last_end, None, f),
                None => !spec_report_emits(avs, last_end, None),
            }
        }),
        closure2 == match emitted {
            Some(f) => pre_final.push(f),
            None => pre_final,
        },
    ensures
        forall|t: int| covered(closure2, t) <==> covered(vsorted, t),
        closure_positive(closure2),
        closure_ordered(closure2),
        forall|i: int| 0 <= i < closure2.len()
            ==> boundary_pt(vsorted, (#[trigger] closure2[i]).time.start.nanos as int),
        forall|i: int| 0 <= i < closure2.len() ==> match (#[trigger] closure2[i]).time.end {
            Some(x) => boundary_pt(vsorted, x.nanos as int),
            None => true,
        },
        forall|i: int, j: int| 0 <= i < closure2.len() && 0 <= j < vsorted.len()
            ==> !((#[trigger] closure2[i]).time.start.nanos
                < (#[trigger] vsorted[j]).time.start.nanos
                < closure2[i].time.spec_effective_end().nanos),
        forall|i: int, j: int| 0 <= i < closure2.len() && 0 <= j < vsorted.len()
            ==> match (#[trigger] vsorted[j]).time.end {
                Some(x) => !((#[trigger] closure2[i]).time.start.nanos < x.nanos
                    < closure2[i].time.spec_effective_end().nanos),
                None => true,
            },
        unique_class_ids(job) ==> forall|i: int, j: int| 0 <= i < closure2.len()
            && 0 <= j < vsorted.len()
            && overlaps((#[trigger] vsorted[j]).time, (#[trigger] closure2[i]).time)
            ==> spec_priority_of(job, closure2[i].class)
                >= spec_priority_of(job, vsorted[j].class),
        forall|i: int| 0 <= i < closure2.len()
            ==> seg_fold_ok(job, vsorted, (#[trigger] closure2[i]).time, closure2[i]),
{
    let n = vsorted.len() as int;
                let processed = vsorted.take(n);
                assert(processed =~= vsorted);
                // Translate the invariant's active-set facts to the open list.
                let avs = Seq::<ActivityView>::empty() + opens_v;
                assert(avs =~= opens_v);
                assert forall|i: int| 0 <= i < opens_v.len()
                    implies vsorted.contains(#[trigger] opens_v[i])
                        && opens_v[i].time.start.nanos <= frontier
                        && opens_v[i].time.end is None by {
                    assert(avs[i] == opens_v[i]);
                }
                if opens_v.len() > 0 {
                    assert(match last_end {
                        Some(le) => le.nanos == frontier,
                        None => false,
                    } || exists|i: int| 0 <= i < opens_v.len()
                        && (#[trigger] opens_v[i]).time.start.nanos == frontier) by {
                        if !(match last_end {
                            Some(le) => le.nanos == frontier,
                            None => false,
                        }) {
                            let i = choose|i: int| 0 <= i < avs.len()
                                && (#[trigger] avs[i]).time.start.nanos == frontier;
                            assert(opens_v[i].time.start.nanos == frontier);
                        }
                    }
                    lemma_final_reach(opens_v, last_end, frontier);
                }
                match emitted {
                    Some(fv) => {
                        assert(fv.time.start.nanos == frontier && fv.time.end is None);
                        assert(opens_v.len() > 0 && frontier < day_max());
                    },
                    None => {
                        assert(opens_v.len() == 0 || frontier == day_max());
                    },
                }
                lemma_final_coverage(vsorted, opens_v, pre_final, frontier, emitted);
                match emitted {
                    Some(fv) => {
                        lemma_final_meta(job, vsorted, opens_v, frontier, last_end,
                            fv);
                        assert forall|i: int| 0 <= i < closure2.len()
                            implies boundary_pt(vsorted, (#[trigger] closure2[
                                i]).time.start.nanos as int)
                                && match closure2[i].time.end {
                                    Some(x) => boundary_pt(vsorted, x.nanos as int),
                                    None => true,
                                } by {
                            if i < pre_final.len() {
                                assert(closure2[i] == pre_final[i]);
                            } else {
                                assert(closure2[i] == fv);
                            }
                        }
                        assert forall|i: int, j: int| 0 <= i < closure2.len()
                            && 0 <= j < vsorted.len()
                            implies !((#[trigger] closure2[i]).time.start.nanos
                                < (#[trigger] vsorted[j]).time.start.nanos
                                < closure2[i].time.spec_effective_end().nanos)
                                && match vsorted[j].time.end {
                                    Some(x) => !(closure2[i].time.start.nanos
                                        < x.nanos < closure2[i].time
                                        .spec_effective_end().nanos),
                                    None => true,
                                } by {
                            if i < pre_final.len() {
                                assert(closure2[i] == pre_final[i]);
                            } else {
                                assert(closure2[i] == fv);
                            }
                        }
                        if unique_class_ids(job) {
                            assert forall|i: int, j: int| 0 <= i < closure2.len()
                                && 0 <= j < vsorted.len()
                                && overlaps((#[trigger] vsorted[j]).time,
                                    (#[trigger] closure2[i]).time)
                                implies spec_priority_of(job,
                                    closure2[i].class) >= spec_priority_of(
                                    job, vsorted[j].class) by {
                                if i < pre_final.len() {
                                    assert(closure2[i] == pre_final[i]);
                                } else {
                                    assert(closure2[i] == fv);
                                }
                            }
                        }
                        assert forall|i: int| 0 <= i < closure2.len()
                            implies seg_fold_ok(job, vsorted,
                                (#[trigger] closure2[i]).time, closure2[i]) by {
                            if i < pre_final.len() {
                                assert(closure2[i] == pre_final[i]);
                            } else {
                                assert(closure2[i] == fv);
                            }
                        }
                    },
                    None => {
                        assert(closure2 == pre_final);
                    },
                }
}

/// On disjoint input the closure passes the intervals through: with no two
/// input activities overlapping, none of zero length, and no window given,
/// every input interval appears as a segment, every segment is an input
/// interval, and the segments are the input intervals in ascending start
/// order. (A zero-length input activity covers no instant and would be
/// dropped, so such inputs are excluded.)
#[verifier::rlimit(100)]
#[verifier::spinoff_prover]
pub proof fn lemma_closure_of_disjoint(job: JobConfigView, inp: Seq<ActivityView>,
    res: Seq<ActivityView>)
    requires
        closure_contract(job, inp, res, None, None),
        all_well_formed(inp),
        forall|i: int, j: int| 0 <= i < j < inp.len()
            ==> !overlaps((#[trigger] inp[i]).time, (#[trigger] inp[j]).time),
        forall|i: int| 0 <= i < inp.len()
            ==> (#[trigger] inp[i]).time.start.nanos
                < inp[i].time.spec_effective_end().nanos,
    ensures
        forall|j: int| 0 <= j < inp.len() ==> exists|i: int| 0 <= i < res.len()
            && (#[trigger] res[i]).time.start == (#[trigger] inp[j]).time.start
            && res[i].time.spec_effective_end() == inp[j].time.spec_effective_end(),
        forall|i: int| 0 <= i < res.len() ==> exists|j: int| 0 <= j < inp.len()
            && (#[trigger] res[i]).time.start == (#[trigger] inp[j]).time.start
            && res[i].time.spec_effective_end() == inp[j].time.spec_effective_end(),
        forall|i: int, i2: int| 0 <= i < i2 < res.len()
            ==> (#[trigger] res[i]).time.start.nanos
                < (#[trigger] res[i2]).time.start.nanos,
{
    reveal(closure_contract);
    // Segments never reach past the day: they cover only covered instants.
    assert forall|i: int| 0 <= i < res.len()
        implies (#[trigger] res[i]).time.spec_effective_end().nanos <= day_max() by {
        if res[i].time.spec_effective_end().nanos > day_max() {
            let t = day_max();
            assert(res[i].time.start.nanos <= t) by {
                if res[i].time.start.nanos > t {
                    let t2 = res[i].time.start.nanos as int;
                    assert(res[i].time.covers(t2));
                    assert(covered(res, t2));
                    assert(covered(inp, t2));
                    let k = choose|k: int| 0 <= k < inp.len()
                        && (#[trigger] inp[k]).time.covers(t2);
                    assert(inp[k].time.spec_effective_end().nanos <= day_max());
                }
            }
            assert(res[i].time.covers(t));
            assert(covered(res, t));
            assert(covered(inp, t));
            let k = choose|k: int| 0 <= k < inp.len() && (#[trigger] inp[k]).time.covers(t);
            assert(inp[k].time.spec_effective_end().nanos <= day_max());
        }
    }
    // Ascending starts: each non-last segment ends no later than the next
    // begins, and segments have positive length.
    assert forall|i: int, i2: int| 0 <= i < i2 < res.len()
        implies (#[trigger] res[i]).time.start.nanos
            < (#[trigger] res[i2]).time.start.nanos by {
        lemma_ordered_separated(res, i, i2);
    }
    // Every input interval appears as a segment.
    assert forall|j: int| 0 <= j < inp.len()
        implies exists|i: int| 0 <= i < res.len()
            && (#[trigger] res[i]).time.start == (#[trigger] inp[j]).time.start
            && res[i].time.spec_effective_end() == inp[j].time.spec_effective_end() by {
        let sj = inp[j].time.start.nanos as int;
        let ej = inp[j].time.spec_effective_end().nanos as int;
        assert(inp[j].time.covers(sj));
        assert(covered(inp, sj));
        assert(covered(res, sj));
        let i = choose|i: int| 0 <= i < res.len() && (#[trigger] res[i]).time.covers(sj);
        // The segment begins exactly at the input's start: no input start
        // may lie strictly inside it.
        assert(res[i].time.start.nanos == sj);
        // It ends no later than the input: a defined input end may not lie
        // strictly inside it either, and the day bounds the open case.
        assert(res[i].time.spec_effective_end().nanos <= ej) by {
            match inp[j].time.end {
                Some(_) => {
                    assert(!(res[i].time.start.nanos < ej
                        < res[i].time.spec_effective_end().nanos));
                },
                None => {
                    assert(ej == day_max());
                },
            }
        }
        // And no earlier: the instant where it would stop is covered, so
        // another segment starts there, on an input boundary strictly
        // inside this input's interval, which disjointness forbids.
        assert(res[i].time.spec_effective_end().nanos >= ej) by {
            if res[i].time.spec_effective_end().nanos < ej {
                let t0 = res[i].time.spec_effective_end().nanos as int;
                assert(inp[j].time.covers(t0));
                assert(covered(inp, t0));
                assert(covered(res, t0));
                let i2 = choose|i2: int| 0 <= i2 < res.len()
                    && (#[trigger] res[i2]).time.covers(t0);
                assert(i2 != i);
                if i2 < i {
                    lemma_ordered_separated(res, i2, i);
                    assert(res[i2].time.spec_effective_end().nanos
                        <= res[i].time.start.nanos);
                } else {
                    lemma_ordered_separated(res, i, i2);
                    assert(res[i2].time.start.nanos >= t0);
                    assert(res[i2].time.start.nanos == t0);
                    // that start is an input boundary inside (sj, ej)
                    assert(boundary_pt(inp, t0));
                    if start_boundary(inp, t0) {
                        let k = choose|k: int| 0 <= k < inp.len()
                            && (#[trigger] inp[k]).time.start.nanos == t0;
                        assert(k != j);
                        assert(overlaps(inp[k].time, inp[j].time));
                        if k < j {
                            assert(!overlaps(inp[k].time, inp[j].time));
                        } else {
                            assert(!overlaps(inp[j].time, inp[k].time));
                            assert(overlaps(inp[j].time, inp[k].time));
                        }
                    } else {
                        let k = choose|k: int| 0 <= k < inp.len()
                            && match (#[trigger] inp[k]).time.end {
                                Some(e) => e.nanos == t0,
                                None => false,
                            };
                        assert(k != j);
                        assert(inp[k].time.start.nanos < t0);
                        assert(overlaps(inp[k].time, inp[j].time));
                        if k < j {
                            assert(!overlaps(inp[k].time, inp[j].time));
                        } else {
                            assert(!overlaps(inp[j].time, inp[k].time));
                            assert(overlaps(inp[j].time, inp[k].time));
                        }
                    }
                }
            }
        }
        assert(res[i].time.start == inp[j].time.start);
        assert(res[i].time.spec_effective_end() == inp[j].time.spec_effective_end());
    }
    // Every segment is some input's interval.
    assert forall|i: int| 0 <= i < res.len()
        implies exists|j: int| 0 <= j < inp.len()
            && (#[trigger] res[i]).time.start == (#[trigger] inp[j]).time.start
            && res[i].time.spec_effective_end() == inp[j].time.spec_effective_end() by {
        let t = res[i].time.start.nanos as int;
        assert(res[i].time.covers(t));
        assert(covered(res, t));
        assert(covered(inp, t));
        let j = choose|j: int| 0 <= j < inp.len() && (#[trigger] inp[j]).time.covers(t);
        // the segment carrying input j's interval also covers t, and two
        // segments never cover the same instant
        let ij = choose|ij: int| 0 <= ij < res.len()
            && (#[trigger] res[ij]).time.start == inp[j].time.start
            && res[ij].time.spec_effective_end() == inp[j].time.spec_effective_end();
        assert(res[ij].time.covers(t));
        if ij < i {
            lemma_ordered_separated(res, ij, i);
        }
        if i < ij {
            lemma_ordered_separated(res, i, ij);
        }
        assert(ij == i);
    }
}

/// One segment's clamped-fold clause, read off the contract.
proof fn lemma_contract_seg_fold(job: JobConfigView, inp: Seq<ActivityView>,
    res: Seq<ActivityView>, start: Option<TimeOfDay>, end: Option<TimeOfDay>, i: int)
    requires
        closure_contract(job, inp, res, start, end),
        0 <= i < res.len(),
    ensures
        seg_clamped_fold_ok(job, inp, res[i], start, end),
{
    reveal(closure_contract);
}

/// On disjoint input the closure passes the metadata through as well:
/// each segment carries the name of the one input activity it stands
/// for, and the fold of that activity's class. (Which concrete class that
/// is depends on whether the activity's resolved class outranks the
/// registry's lowest-priority class, as in any fold of one activity.)
#[verifier::rlimit(100)]
#[verifier::spinoff_prover]
pub proof fn lemma_closure_of_disjoint_metadata(job: JobConfigView, inp: Seq<ActivityView>,
    res: Seq<ActivityView>)
    requires
        closure_contract(job, inp, res, None, None),
        all_well_formed(inp),
        forall|i: int, j: int| 0 <= i < j < inp.len()
            ==> !overlaps((#[trigger] inp[i]).time, (#[trigger] inp[j]).time),
        forall|i: int| 0 <= i < inp.len()
            ==> (#[trigger] inp[i]).time.start.nanos
                < inp[i].time.spec_effective_end().nanos,
    ensures
        forall|i: int| 0 <= i < res.len() ==> exists|j: int| 0 <= j < inp.len()
            && (#[trigger] res[i]).time.start == inp[j].time.start
            && res[i].time.spec_effective_end() == inp[j].time.spec_effective_end()
            && res[i].name == inp[j].name
            && res[i].class == IdentifierView::Uuid((if spec_resolved_class(job,
                inp[j]).priority > spec_lowest(job).priority {
                spec_resolved_class(job, inp[j])
            } else {
                spec_lowest(job)
            }).id),
{
    lemma_closure_of_disjoint(job, inp, res);
    assert forall|i: int| 0 <= i < res.len()
        implies exists|j: int| 0 <= j < inp.len()
            && (#[trigger] res[i]).time.start == inp[j].time.start
            && res[i].time.spec_effective_end() == inp[j].time.spec_effective_end()
            && res[i].name == inp[j].name
            && res[i].class == IdentifierView::Uuid((if spec_resolved_class(job,
                inp[j]).priority > spec_lowest(job).priority {
                spec_resolved_class(job, inp[j])
            } else {
                spec_lowest(job)
            }).id) by {
        let j = choose|j: int| 0 <= j < inp.len()
            && (#[trigger] res[i]).time.start == (#[trigger] inp[j]).time.start
            && res[i].time.spec_effective_end() == inp[j].time.spec_effective_end();
        lemma_contract_seg_fold(job, inp, res, None, None, i);
        let iv = choose|iv: Interval| #[trigger] clamp_iv(iv, res[i].time, None, None)
            && seg_fold_ok(job, inp, iv, res[i]);
        assert(iv == res[i].time);
        // the segment's span overlaps its own input, and no other
        assert(overlaps(inp[j].time, iv));
        assert forall|k: int| 0 <= k < inp.len() && overlaps((#[trigger] inp[k]).time, iv)
            implies inp[k] == inp[j] by {
            if k != j {
                assert(overlaps(inp[k].time, inp[j].time));
                if k < j {
                    assert(!overlaps(inp[k].time, inp[j].time));
                } else {
                    assert(!overlaps(inp[j].time, inp[k].time));
                    assert(overlaps(inp[j].time, inp[k].time));
                }
            }
        }
        lemma_single_contributor_metadata(job, inp, iv, res[i], j);
    }
}

} // verus!
