//! The diff engine: consumes the canonicalized local corpus and the
//! remote snapshot, and partitions every entity into sync, unchanged
//! and delete sets, honoring the parent-skip rules. Every snapshot
//! entry that is looked up is removed; what remains when all local
//! data is processed no longer exists locally and is queued for
//! deletion.

use vstd::prelude::*;
use crate::data::{
    CourseData, CourseView, QuestionData, QuestionView, QuestionOptionData, QuestionOptionView,
    CourseEvaluationData, CourseEvaluationView, full_key_spec, questions_view, options_view,
    evaluations_view,
};
use crate::snapshot::{StringMap, IdMap, lookup_first, remove_first};
use crate::canon::{lemma_qview_remove0, lemma_qview_push, lemma_oview_remove0, lemma_oview_push};

verus! {

pub open spec fn courses_view(v: Vec<CourseData>) -> Seq<CourseView> {
    v@.map_values(|c: CourseData| c@)
}

/// The remote snapshot: each entity kind's identity-to-digest mapping
/// as last recorded, and the asset bucket's name.
pub struct SyncMetadata {
    pub courses_metadata: StringMap,
    pub questions_metadata: IdMap,
    pub question_options_metadata: IdMap,
    pub course_evaluations_metadata: StringMap,
    pub images_bucket_name: String,
}

#[verifier::ext_equal]
pub ghost struct SyncMetadataView {
    pub courses: Seq<(Seq<char>, Seq<char>)>,
    pub questions: Seq<(u128, Seq<char>)>,
    pub question_options: Seq<(u128, Seq<char>)>,
    pub course_evaluations: Seq<(Seq<char>, Seq<char>)>,
    pub images_bucket_name: Seq<char>,
}

impl View for SyncMetadata {
    type V = SyncMetadataView;

    open spec fn view(&self) -> SyncMetadataView {
        SyncMetadataView {
            courses: self.courses_metadata@,
            questions: self.questions_metadata@,
            question_options: self.question_options_metadata@,
            course_evaluations: self.course_evaluations_metadata@,
            images_bucket_name: self.images_bucket_name@,
        }
    }
}

/// The sync plan: what to upsert and what to delete, per entity kind.
/// Synced courses and questions carry emptied child lists; their
/// children travel in their own lists.
pub struct SyncData {
    pub courses_to_sync: Vec<CourseData>,
    pub courses_to_delete: Vec<String>,
    pub questions_to_sync: Vec<QuestionData>,
    pub questions_to_delete: Vec<u128>,
    pub question_options_to_sync: Vec<QuestionOptionData>,
    pub question_options_to_delete: Vec<u128>,
    pub course_evaluations_to_sync: Vec<CourseEvaluationData>,
    pub course_evaluations_to_delete: Vec<String>,
}

#[verifier::ext_equal]
pub ghost struct SyncDataView {
    pub courses_to_sync: Seq<CourseView>,
    pub courses_to_delete: Seq<Seq<char>>,
    pub questions_to_sync: Seq<QuestionView>,
    pub questions_to_delete: Seq<u128>,
    pub question_options_to_sync: Seq<QuestionOptionView>,
    pub question_options_to_delete: Seq<u128>,
    pub course_evaluations_to_sync: Seq<CourseEvaluationView>,
    pub course_evaluations_to_delete: Seq<Seq<char>>,
}

impl View for SyncData {
    type V = SyncDataView;

    open spec fn view(&self) -> SyncDataView {
        SyncDataView {
            courses_to_sync: courses_view(self.courses_to_sync),
            courses_to_delete: self.courses_to_delete@.map_values(|s: String| s@),
            questions_to_sync: questions_view(self.questions_to_sync),
            questions_to_delete: self.questions_to_delete@,
            question_options_to_sync: options_view(self.question_options_to_sync),
            question_options_to_delete: self.question_options_to_delete@,
            course_evaluations_to_sync: evaluations_view(self.course_evaluations_to_sync),
            course_evaluations_to_delete: self.course_evaluations_to_delete@.map_values(
                |s: String| s@,
            ),
        }
    }
}

/// The engine's running state: what is left of the snapshot, and the
/// plan so far.
#[verifier::ext_equal]
pub ghost struct DiffState {
    pub meta: SyncMetadataView,
    pub plan: SyncDataView,
}

pub open spec fn empty_plan() -> SyncDataView {
    SyncDataView {
        courses_to_sync: Seq::<CourseView>::empty(),
        courses_to_delete: Seq::<Seq<char>>::empty(),
        questions_to_sync: Seq::<QuestionView>::empty(),
        questions_to_delete: Seq::<u128>::empty(),
        question_options_to_sync: Seq::<QuestionOptionView>::empty(),
        question_options_to_delete: Seq::<u128>::empty(),
        course_evaluations_to_sync: Seq::<CourseEvaluationView>::empty(),
        course_evaluations_to_delete: Seq::<Seq<char>>::empty(),
    }
}

/// One option: its entry leaves the snapshot; it is queued for upsert
/// unless its digest matches the recorded one. Options are always
/// checked individually, whatever their parents' status.
pub open spec fn diff_option(st: DiffState, o: QuestionOptionView) -> DiffState {
    let found = lookup_first(st.meta.question_options, o.id);
    let matched = match found {
        Option::Some(h) => h == o.hash,
        Option::None => false,
    };
    let st1 = DiffState {
        meta: SyncMetadataView {
            question_options: remove_first(st.meta.question_options, o.id),
            ..st.meta
        },
        ..st
    };
    if matched {
        st1
    } else {
        DiffState {
            plan: SyncDataView {
                question_options_to_sync: st1.plan.question_options_to_sync.push(o),
                ..st1.plan
            },
            ..st1
        }
    }
}

pub open spec fn diff_options(st: DiffState, os: Seq<QuestionOptionView>) -> DiffState
    decreases os.len(),
{
    if os.len() == 0 {
        st
    } else {
        diff_option(diff_options(st, os.drop_last()), os.last())
    }
}

/// One question: its entry leaves the snapshot; it is skipped when
/// its digest matches, or when the owning course is unchanged and the
/// snapshot had no entry for it at all. Its options are then checked
/// individually either way.
pub open spec fn diff_question(st: DiffState, q: QuestionView, skip_course: bool) -> DiffState {
    let found = lookup_first(st.meta.questions, q.id);
    let skip_question = match found {
        Option::Some(h) => h == q.hash,
        Option::None => skip_course,
    };
    let st1 = DiffState {
        meta: SyncMetadataView { questions: remove_first(st.meta.questions, q.id), ..st.meta },
        ..st
    };
    let st2 = diff_options(st1, q.question_options);
    if skip_question {
        st2
    } else {
        DiffState {
            plan: SyncDataView {
                questions_to_sync: st2.plan.questions_to_sync.push(
                    QuestionView { question_options: Seq::<QuestionOptionView>::empty(), ..q },
                ),
                ..st2.plan
            },
            ..st2
        }
    }
}

pub open spec fn diff_questions(st: DiffState, qs: Seq<QuestionView>, skip_course: bool) -> DiffState
    decreases qs.len(),
{
    if qs.len() == 0 {
        st
    } else {
        diff_question(diff_questions(st, qs.drop_last(), skip_course), qs.last(), skip_course)
    }
}

/// One evaluation: looked up under its composite key, never subject
/// to parent-skip.
pub open spec fn diff_evaluation(st: DiffState, e: CourseEvaluationView) -> DiffState {
    let fk = full_key_spec(e.course_key->0, e.key);
    let found = lookup_first(st.meta.course_evaluations, fk);
    let matched = match found {
        Option::Some(h) => h == e.hash,
        Option::None => false,
    };
    let st1 = DiffState {
        meta: SyncMetadataView {
            course_evaluations: remove_first(st.meta.course_evaluations, fk),
            ..st.meta
        },
        ..st
    };
    if matched {
        st1
    } else {
        DiffState {
            plan: SyncDataView {
                course_evaluations_to_sync: st1.plan.course_evaluations_to_sync.push(e),
                ..st1.plan
            },
            ..st1
        }
    }
}

pub open spec fn diff_evaluations(st: DiffState, es: Seq<CourseEvaluationView>) -> DiffState
    decreases es.len(),
{
    if es.len() == 0 {
        st
    } else {
        diff_evaluation(diff_evaluations(st, es.drop_last()), es.last())
    }
}

/// One course: its entry leaves the snapshot; it is unchanged iff its
/// digest matches. Its evaluations are checked individually, then its
/// questions under the course's skip status, and finally the course
/// itself is queued for upsert unless unchanged, with emptied child
/// lists.
pub open spec fn diff_course(st: DiffState, c: CourseView) -> DiffState {
    let found = lookup_first(st.meta.courses, c.key);
    let skip_course = match found {
        Option::Some(h) => h == c.hash,
        Option::None => false,
    };
    let st1 = DiffState {
        meta: SyncMetadataView { courses: remove_first(st.meta.courses, c.key), ..st.meta },
        ..st
    };
    let st2 = diff_evaluations(st1, c.evaluations);
    let st3 = diff_questions(st2, c.questions, skip_course);
    if skip_course {
        st3
    } else {
        DiffState {
            plan: SyncDataView {
                courses_to_sync: st3.plan.courses_to_sync.push(
                    CourseView {
                        questions: Seq::<QuestionView>::empty(),
                        evaluations: Seq::<CourseEvaluationView>::empty(),
                        ..c
                    },
                ),
                ..st3.plan
            },
            ..st3
        }
    }
}

pub open spec fn diff_courses(st: DiffState, cs: Seq<CourseView>) -> DiffState
    decreases cs.len(),
{
    if cs.len() == 0 {
        st
    } else {
        diff_course(diff_courses(st, cs.drop_last()), cs.last())
    }
}

/// After all local data is processed: whatever remains in the
/// snapshot is queued for deletion, in snapshot order.
pub open spec fn finish_plan(st: DiffState) -> DiffState {
    DiffState {
        meta: st.meta,
        plan: SyncDataView {
            courses_to_delete: st.meta.courses.map_values(|p: (Seq<char>, Seq<char>)| p.0),
            questions_to_delete: st.meta.questions.map_values(|p: (u128, Seq<char>)| p.0),
            question_options_to_delete: st.meta.question_options.map_values(
                |p: (u128, Seq<char>)| p.0,
            ),
            course_evaluations_to_delete: st.meta.course_evaluations.map_values(
                |p: (Seq<char>, Seq<char>)| p.0,
            ),
            ..st.plan
        },
    }
}

/// The whole diff: fold over the courses, then turn what remains of
/// the snapshot into the delete sets.
pub open spec fn diff_spec(cs: Seq<CourseView>, m: SyncMetadataView) -> DiffState {
    finish_plan(diff_courses(DiffState { meta: m, plan: empty_plan() }, cs))
}

/// Every evaluation carries its course key, as the canonicalizer's
/// key-attachment pass leaves it.
pub open spec fn evaluations_keyed(cs: Seq<CourseView>) -> bool {
    forall|i: int, j: int|
        0 <= i < cs.len() && 0 <= j < cs[i].evaluations.len() ==> (#[trigger] cs[i].evaluations[j]).course_key is Some
}

proof fn lemma_cview_remove0(prev: Seq<CourseData>, now: Seq<CourseData>)
    requires
        prev.len() > 0,
        now == prev.remove(0),
    ensures
        now.map_values(|c: CourseData| c@) =~= prev.map_values(|c: CourseData| c@).skip(1),
{
    let nmv = now.map_values(|c: CourseData| c@);
    let pmv = prev.map_values(|c: CourseData| c@);
    assert forall|i: int| 0 <= i < now.len() implies #[trigger] nmv[i] == pmv.skip(1)[i] by {
        assert(nmv[i] == now[i]@);
        assert(pmv[i + 1] == prev[i + 1]@);
    }
}

proof fn lemma_cview_push(prev: Seq<CourseData>, now: Seq<CourseData>, x: CourseData)
    requires
        now == prev.push(x),
    ensures
        now.map_values(|c: CourseData| c@) =~= prev.map_values(|c: CourseData| c@).push(x@),
{
    let nmv = now.map_values(|c: CourseData| c@);
    let pmv = prev.map_values(|c: CourseData| c@);
    assert forall|i: int| 0 <= i < now.len() implies #[trigger] nmv[i] == pmv.push(x@)[i] by {
        assert(nmv[i] == now[i]@);
        if i < prev.len() {
            assert(pmv[i] == prev[i]@);
        }
    }
}

proof fn lemma_eview_remove0(prev: Seq<CourseEvaluationData>, now: Seq<CourseEvaluationData>)
    requires
        prev.len() > 0,
        now == prev.remove(0),
    ensures
        now.map_values(|e: CourseEvaluationData| e@) =~= prev.map_values(
            |e: CourseEvaluationData| e@,
        ).skip(1),
{
    let nmv = now.map_values(|e: CourseEvaluationData| e@);
    let pmv = prev.map_values(|e: CourseEvaluationData| e@);
    assert forall|i: int| 0 <= i < now.len() implies #[trigger] nmv[i] == pmv.skip(1)[i] by {
        assert(nmv[i] == now[i]@);
        assert(pmv[i + 1] == prev[i + 1]@);
    }
}

proof fn lemma_eview_push(
    prev: Seq<CourseEvaluationData>,
    now: Seq<CourseEvaluationData>,
    x: CourseEvaluationData,
)
    requires
        now == prev.push(x),
    ensures
        now.map_values(|e: CourseEvaluationData| e@) =~= prev.map_values(
            |e: CourseEvaluationData| e@,
        ).push(x@),
{
    let nmv = now.map_values(|e: CourseEvaluationData| e@);
    let pmv = prev.map_values(|e: CourseEvaluationData| e@);
    assert forall|i: int| 0 <= i < now.len() implies #[trigger] nmv[i] == pmv.push(x@)[i] by {
        assert(nmv[i] == now[i]@);
        if i < prev.len() {
            assert(pmv[i] == prev[i]@);
        }
    }
}

proof fn lemma_sview_push(prev: Seq<String>, now: Seq<String>, x: String)
    requires
        now == prev.push(x),
    ensures
        now.map_values(|s: String| s@) =~= prev.map_values(|s: String| s@).push(x@),
{
    let nmv = now.map_values(|s: String| s@);
    let pmv = prev.map_values(|s: String| s@);
    assert forall|i: int| 0 <= i < now.len() implies #[trigger] nmv[i] == pmv.push(x@)[i] by {
        assert(nmv[i] == now[i]@);
        if i < prev.len() {
            assert(pmv[i] == prev[i]@);
        }
    }
}

/// Computes the sync plan from the canonicalized local courses and
/// the remote snapshot. Looked-up snapshot entries are removed from
/// `metadata` as a side effect; the plan's delete sets are exactly
/// what remains afterwards.
pub fn compute_sync_data(courses: Vec<CourseData>, metadata: &mut SyncMetadata) -> (plan: SyncData)
    requires
        evaluations_keyed(courses_view(courses)),
    ensures
        plan@ == diff_spec(courses_view(courses), old(metadata)@).plan,
        final(metadata)@ == diff_spec(courses_view(courses), old(metadata)@).meta,
{
    let ghost cs0 = courses_view(courses);
    let ghost st0 = (DiffState { meta: old(metadata)@, plan: empty_plan() });
    let mut courses = courses;
    let mut courses_to_sync: Vec<CourseData> = Vec::new();
    let mut questions_to_sync: Vec<QuestionData> = Vec::new();
    let mut question_options_to_sync: Vec<QuestionOptionData> = Vec::new();
    let mut course_evaluations_to_sync: Vec<CourseEvaluationData> = Vec::new();
    let n = courses.len();
    let mut k: usize = 0;
    proof {
        assert(cs0.len() == n as int);
        assert(cs0.take(0) =~= Seq::<CourseView>::empty());
        assert(cs0.skip(0) =~= cs0);
        assert(courses_view(courses) =~= cs0);
        assert(courses_view(courses_to_sync) =~= Seq::<CourseView>::empty());
        assert(questions_view(questions_to_sync) =~= Seq::<QuestionView>::empty());
        assert(options_view(question_options_to_sync) =~= Seq::<QuestionOptionView>::empty());
        assert(evaluations_view(course_evaluations_to_sync) =~= Seq::<
            CourseEvaluationView,
        >::empty());
        assert((DiffState {
            meta: metadata@,
            plan: SyncDataView {
                courses_to_sync: courses_view(courses_to_sync),
                questions_to_sync: questions_view(questions_to_sync),
                question_options_to_sync: options_view(question_options_to_sync),
                course_evaluations_to_sync: evaluations_view(course_evaluations_to_sync),
                ..empty_plan()
            },
        }) =~~= diff_courses(st0, cs0.take(0)));
    }
    while courses.len() > 0
        invariant
            k + courses.len() == cs0.len(),
            cs0.len() <= usize::MAX,
            evaluations_keyed(cs0),
            courses_view(courses) == cs0.skip(k as int),
            (DiffState {
                meta: metadata@,
                plan: SyncDataView {
                    courses_to_sync: courses_view(courses_to_sync),
                    questions_to_sync: questions_view(questions_to_sync),
                    question_options_to_sync: options_view(question_options_to_sync),
                    course_evaluations_to_sync: evaluations_view(course_evaluations_to_sync),
                    ..empty_plan()
                },
            }) == diff_courses(st0, cs0.take(k as int)),
        decreases courses.len(),
    {
        let ghost st_k = diff_courses(st0, cs0.take(k as int));
        let ghost prevcs = courses@;
        let mut c = courses.remove(0);
        proof {
            lemma_cview_remove0(prevcs, courses@);
            assert(courses_view(courses) =~= cs0.skip(k + 1));
            assert(prevcs.map_values(|x: CourseData| x@)[0] == prevcs[0]@);
            assert(c@ == cs0.skip(k as int)[0]);
            assert(c@ == cs0[k as int]);
            assert(cs0.take(k + 1).drop_last() =~= cs0.take(k as int));
            assert(cs0.take(k + 1).last() == cs0[k as int]);
        }
        let ghost cv = c@;
        let found = metadata.courses_metadata.remove(&c.key);
        let skip_course = match found {
            Option::Some(h) => String::eq(&h, &c.hash),
            Option::None => false,
        };
        let ghost st1 = (DiffState {
            meta: SyncMetadataView { courses: remove_first(st_k.meta.courses, cv.key), ..st_k.meta },
            ..st_k
        });
        proof {
            assert(metadata@ =~~= st1.meta);
            assert((DiffState {
                meta: metadata@,
                plan: SyncDataView {
                    courses_to_sync: courses_view(courses_to_sync),
                    questions_to_sync: questions_view(questions_to_sync),
                    question_options_to_sync: options_view(question_options_to_sync),
                    course_evaluations_to_sync: evaluations_view(course_evaluations_to_sync),
                    ..empty_plan()
                },
            }) =~~= st1);
        }
        // evaluations: always checked individually by composite key
        let ghost ev0 = cv.evaluations;
        let mut je: usize = 0;
        let ne = c.evaluations.len();
        proof {
            assert(ev0.len() == ne as int);
            assert(ev0.take(0) =~= Seq::<CourseEvaluationView>::empty());
            assert(evaluations_view(c.evaluations) =~= ev0.skip(0));
        }
        while c.evaluations.len() > 0
            invariant
                je + c.evaluations.len() == ev0.len(),
                ev0.len() <= usize::MAX,
                evaluations_keyed(cs0),
                0 <= k < cs0.len(),
                cv == cs0[k as int],
                ev0 == cv.evaluations,
                evaluations_view(c.evaluations) == ev0.skip(je as int),
                (CourseView {
                    evaluations: ev0,
                    ..c@
                }) == cv,
                (DiffState {
                    meta: metadata@,
                    plan: SyncDataView {
                        courses_to_sync: courses_view(courses_to_sync),
                        questions_to_sync: questions_view(questions_to_sync),
                        question_options_to_sync: options_view(question_options_to_sync),
                        course_evaluations_to_sync: evaluations_view(course_evaluations_to_sync),
                        ..empty_plan()
                    },
                }) == diff_evaluations(st1, ev0.take(je as int)),
            decreases c.evaluations.len(),
        {
            let ghost st_e = diff_evaluations(st1, ev0.take(je as int));
            let ghost preves = c.evaluations@;
            let e = c.evaluations.remove(0);
            proof {
                lemma_eview_remove0(preves, c.evaluations@);
                assert(evaluations_view(c.evaluations) =~= ev0.skip(je + 1));
                assert(preves.map_values(|x: CourseEvaluationData| x@)[0] == preves[0]@);
                assert(e@ == ev0.skip(je as int)[0]);
                assert(e@ == ev0[je as int]);
                assert(ev0.take(je + 1).drop_last() =~= ev0.take(je as int));
                assert(ev0.take(je + 1).last() == ev0[je as int]);
                assert(cs0[k as int].evaluations[je as int].course_key is Some);
            }
            let fk = e.full_key();
            let f2 = metadata.course_evaluations_metadata.remove(&fk);
            let matched = match f2 {
                Option::Some(h) => String::eq(&h, &e.hash),
                Option::None => false,
            };
            if !matched {
                let ghost prevsync = course_evaluations_to_sync@;
                course_evaluations_to_sync.push(e);
                proof {
                    lemma_eview_push(prevsync, course_evaluations_to_sync@, e);
                }
            }
            proof {
                assert((DiffState {
                    meta: metadata@,
                    plan: SyncDataView {
                        courses_to_sync: courses_view(courses_to_sync),
                        questions_to_sync: questions_view(questions_to_sync),
                        question_options_to_sync: options_view(question_options_to_sync),
                        course_evaluations_to_sync: evaluations_view(course_evaluations_to_sync),
                        ..empty_plan()
                    },
                }) =~~= diff_evaluation(st_e, ev0[je as int]));
            }
            je = je + 1;
        }
        proof {
            assert(ev0.take(ev0.len() as int) =~= ev0);
        }
        let ghost st2 = diff_evaluations(st1, ev0);
        // questions, under the course's skip status
        let ghost qs0 = cv.questions;
        let mut jq: usize = 0;
        let nq = c.questions.len();
        proof {
            assert(qs0.len() == nq as int);
            assert(qs0.take(0) =~= Seq::<QuestionView>::empty());
            assert(questions_view(c.questions) =~= qs0.skip(0));
        }
        while c.questions.len() > 0
            invariant
                jq + c.questions.len() == qs0.len(),
                qs0.len() <= usize::MAX,
                qs0 == cv.questions,
                questions_view(c.questions) == qs0.skip(jq as int),
                skip_course == (match lookup_first(st_k.meta.courses, cv.key) {
                    Option::Some(h) => h == cv.hash,
                    Option::None => false,
                }),
                (CourseView {
                    evaluations: ev0,
                    questions: qs0,
                    ..c@
                }) == cv,
                c@.evaluations == Seq::<CourseEvaluationView>::empty(),
                (DiffState {
                    meta: metadata@,
                    plan: SyncDataView {
                        courses_to_sync: courses_view(courses_to_sync),
                        questions_to_sync: questions_view(questions_to_sync),
                        question_options_to_sync: options_view(question_options_to_sync),
                        course_evaluations_to_sync: evaluations_view(course_evaluations_to_sync),
                        ..empty_plan()
                    },
                }) == diff_questions(st2, qs0.take(jq as int), skip_course),
            decreases c.questions.len(),
        {
            let ghost st_q = diff_questions(st2, qs0.take(jq as int), skip_course);
            let ghost prevqs = c.questions@;
            let mut q = c.questions.remove(0);
            proof {
                lemma_qview_remove0(prevqs, c.questions@);
                assert(questions_view(c.questions) =~= qs0.skip(jq + 1));
                assert(prevqs.map_values(|x: QuestionData| x@)[0] == prevqs[0]@);
                assert(q@ == qs0.skip(jq as int)[0]);
                assert(q@ == qs0[jq as int]);
                assert(qs0.take(jq + 1).drop_last() =~= qs0.take(jq as int));
                assert(qs0.take(jq + 1).last() == qs0[jq as int]);
            }
            let ghost qv = q@;
            let fq = metadata.questions_metadata.remove(q.id);
            let skip_question = match fq {
                Option::Some(h) => String::eq(&h, &q.hash),
                Option::None => skip_course,
            };
            let ghost stq1 = (DiffState {
                meta: SyncMetadataView {
                    questions: remove_first(st_q.meta.questions, qv.id),
                    ..st_q.meta
                },
                ..st_q
            });
            proof {
                assert(metadata@ =~~= stq1.meta);
                assert((DiffState {
                    meta: metadata@,
                    plan: SyncDataView {
                        courses_to_sync: courses_view(courses_to_sync),
                        questions_to_sync: questions_view(questions_to_sync),
                        question_options_to_sync: options_view(question_options_to_sync),
                        course_evaluations_to_sync: evaluations_view(course_evaluations_to_sync),
                        ..empty_plan()
                    },
                }) =~~= stq1);
            }
            // options: always checked individually
            let ghost os0 = qv.question_options;
            let mut jo: usize = 0;
            let no = q.question_options.len();
            proof {
                assert(os0.len() == no as int);
                assert(os0.take(0) =~= Seq::<QuestionOptionView>::empty());
                assert(options_view(q.question_options) =~= os0.skip(0));
            }
            while q.question_options.len() > 0
                invariant
                    jo + q.question_options.len() == os0.len(),
                    os0.len() <= usize::MAX,
                    os0 == qv.question_options,
                    options_view(q.question_options) == os0.skip(jo as int),
                    (QuestionView {
                        question_options: os0,
                        ..q@
                    }) == qv,
                    (DiffState {
                        meta: metadata@,
                        plan: SyncDataView {
                            courses_to_sync: courses_view(courses_to_sync),
                            questions_to_sync: questions_view(questions_to_sync),
                            question_options_to_sync: options_view(question_options_to_sync),
                            course_evaluations_to_sync: evaluations_view(
                                course_evaluations_to_sync,
                            ),
                            ..empty_plan()
                        },
                    }) == diff_options(stq1, os0.take(jo as int)),
                decreases q.question_options.len(),
            {
                let ghost st_o = diff_options(stq1, os0.take(jo as int));
                let ghost prevos = q.question_options@;
                let o = q.question_options.remove(0);
                proof {
                    lemma_oview_remove0(prevos, q.question_options@);
                    assert(options_view(q.question_options) =~= os0.skip(jo + 1));
                    assert(prevos.map_values(|x: QuestionOptionData| x@)[0] == prevos[0]@);
                    assert(o@ == os0.skip(jo as int)[0]);
                    assert(o@ == os0[jo as int]);
                    assert(os0.take(jo + 1).drop_last() =~= os0.take(jo as int));
                    assert(os0.take(jo + 1).last() == os0[jo as int]);
                }
                let fo = metadata.question_options_metadata.remove(o.id);
                let omatched = match fo {
                    Option::Some(h) => String::eq(&h, &o.hash),
                    Option::None => false,
                };
                if !omatched {
                    let ghost prevsync = question_options_to_sync@;
                    question_options_to_sync.push(o);
                    proof {
                        lemma_oview_push(prevsync, question_options_to_sync@, o);
                    }
                }
                proof {
                    assert((DiffState {
                        meta: metadata@,
                        plan: SyncDataView {
                            courses_to_sync: courses_view(courses_to_sync),
                            questions_to_sync: questions_view(questions_to_sync),
                            question_options_to_sync: options_view(question_options_to_sync),
                            course_evaluations_to_sync: evaluations_view(
                                course_evaluations_to_sync,
                            ),
                            ..empty_plan()
                        },
                    }) =~~= diff_option(st_o, os0[jo as int]));
                }
                jo = jo + 1;
            }
            proof {
                assert(os0.take(os0.len() as int) =~= os0);
            }
            if !skip_question {
                let ghost prevsync = questions_to_sync@;
                proof {
                    assert(q@.question_options =~= Seq::<QuestionOptionView>::empty());
                    assert(q@ == (QuestionView {
                        question_options: Seq::<QuestionOptionView>::empty(),
                        ..qv
                    }));
                }
                questions_to_sync.push(q);
                proof {
                    lemma_qview_push(prevsync, questions_to_sync@, q);
                }
            }
            proof {
                assert((DiffState {
                    meta: metadata@,
                    plan: SyncDataView {
                        courses_to_sync: courses_view(courses_to_sync),
                        questions_to_sync: questions_view(questions_to_sync),
                        question_options_to_sync: options_view(question_options_to_sync),
                        course_evaluations_to_sync: evaluations_view(course_evaluations_to_sync),
                        ..empty_plan()
                    },
                }) =~~= diff_question(st_q, qs0[jq as int], skip_course));
            }
            jq = jq + 1;
        }
        proof {
            assert(qs0.take(qs0.len() as int) =~= qs0);
        }
        if !skip_course {
            let ghost prevsync = courses_to_sync@;
            proof {
                assert(c@.questions =~= Seq::<QuestionView>::empty());
                assert(c@.evaluations =~= Seq::<CourseEvaluationView>::empty());
                assert(c@ == (CourseView {
                    questions: Seq::<QuestionView>::empty(),
                    evaluations: Seq::<CourseEvaluationView>::empty(),
                    ..cv
                }));
            }
            courses_to_sync.push(c);
            proof {
                lemma_cview_push(prevsync, courses_to_sync@, c);
            }
        }
        proof {
            assert((DiffState {
                meta: metadata@,
                plan: SyncDataView {
                    courses_to_sync: courses_view(courses_to_sync),
                    questions_to_sync: questions_view(questions_to_sync),
                    question_options_to_sync: options_view(question_options_to_sync),
                    course_evaluations_to_sync: evaluations_view(course_evaluations_to_sync),
                    ..empty_plan()
                },
            }) =~~= diff_course(st_k, cs0[k as int]));
        }
        k = k + 1;
    }
    proof {
        assert(cs0.take(cs0.len() as int) =~= cs0);
    }
    // what remains in the snapshot no longer exists locally
    let courses_to_delete = metadata.courses_metadata.keys();
    let questions_to_delete = metadata.questions_metadata.keys();
    let question_options_to_delete = metadata.question_options_metadata.keys();
    let course_evaluations_to_delete = metadata.course_evaluations_metadata.keys();
    let plan = SyncData {
        courses_to_sync,
        courses_to_delete,
        questions_to_sync,
        questions_to_delete,
        question_options_to_sync,
        question_options_to_delete,
        course_evaluations_to_sync,
        course_evaluations_to_delete,
    };
    proof {
        assert(plan@ =~~= diff_spec(cs0, old(metadata)@).plan);
        assert(metadata@ =~~= diff_spec(cs0, old(metadata)@).meta);
    }
    plan
}

} // verus!
