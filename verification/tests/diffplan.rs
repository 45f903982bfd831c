use medici_data_sync::data::{CourseData, CourseEvaluationData, QuestionData, QuestionOptionData};
use medici_data_sync::diff::{compute_sync_data, SyncMetadata};
use medici_data_sync::snapshot::{IdMap, StringMap};

fn option(id: u128, text: &str, correct: bool) -> QuestionOptionData {
    QuestionOptionData::new(id, text.to_string(), correct, None)
}

fn course_one_question(key: &str) -> CourseData {
    let q = QuestionData::new(
        1,
        "q?".to_string(),
        None,
        vec![option(11, "yes", true), option(12, "no", false)],
        "final".to_string(),
        "src".to_string(),
        None,
    );
    let e = CourseEvaluationData::new("final".to_string(), "Final exam".to_string());
    CourseData::new(
        key.to_string(),
        "Course".to_string(),
        "C".to_string(),
        vec![],
        None,
        vec![q],
        vec![e],
    )
}

fn empty_metadata() -> SyncMetadata {
    SyncMetadata {
        courses_metadata: StringMap::new(),
        questions_metadata: IdMap::new(),
        question_options_metadata: IdMap::new(),
        course_evaluations_metadata: StringMap::new(),
        images_bucket_name: "bucket".to_string(),
    }
}

#[test]
fn unchanged_course_skips_question_but_not_changed_option() {
    let mut c = course_one_question("c1");
    c.canonicalize();
    let mut meta = empty_metadata();
    meta.courses_metadata.insert("c1".to_string(), c.hash.clone());
    meta.questions_metadata.insert(1, c.questions[0].hash.clone());
    // the option's recorded digest differs from its current one
    meta.question_options_metadata.insert(11, "stale".to_string());
    meta.question_options_metadata
        .insert(12, c.questions[0].question_options[1].hash.clone());
    meta.course_evaluations_metadata
        .insert("c1/final".to_string(), c.evaluations[0].hash.clone());

    let plan = compute_sync_data(vec![c], &mut meta);
    assert!(plan.courses_to_sync.is_empty());
    assert!(plan.questions_to_sync.is_empty());
    assert!(plan.course_evaluations_to_sync.is_empty());
    assert_eq!(plan.question_options_to_sync.len(), 1);
    assert_eq!(plan.question_options_to_sync[0].id, 11);
    assert!(plan.courses_to_delete.is_empty());
    assert!(plan.questions_to_delete.is_empty());
    assert!(plan.question_options_to_delete.is_empty());
    assert!(plan.course_evaluations_to_delete.is_empty());
}

#[test]
fn vanished_remote_course_is_deleted_with_descendants() {
    let mut meta = empty_metadata();
    meta.courses_metadata.insert("c2".to_string(), "h2".to_string());
    meta.questions_metadata.insert(21, "qh".to_string());
    meta.question_options_metadata.insert(211, "oh".to_string());
    meta.course_evaluations_metadata
        .insert("c2/final".to_string(), "eh".to_string());

    let plan = compute_sync_data(vec![], &mut meta);
    assert_eq!(plan.courses_to_delete, vec!["c2".to_string()]);
    assert_eq!(plan.questions_to_delete, vec![21]);
    assert_eq!(plan.question_options_to_delete, vec![211]);
    assert_eq!(plan.course_evaluations_to_delete, vec!["c2/final".to_string()]);
    assert!(plan.courses_to_sync.is_empty());
    assert!(plan.questions_to_sync.is_empty());
}

#[test]
fn full_course_skip_still_surfaces_changed_option() {
    let mut c = course_one_question("c1");
    c.canonicalize();
    let mut meta = empty_metadata();
    // course digest matches exactly; the question has no remote entry,
    // so the parent-trust path skips it
    meta.courses_metadata.insert("c1".to_string(), c.hash.clone());
    meta.question_options_metadata.insert(11, "different".to_string());
    meta.question_options_metadata
        .insert(12, c.questions[0].question_options[1].hash.clone());
    meta.course_evaluations_metadata
        .insert("c1/final".to_string(), c.evaluations[0].hash.clone());

    let plan = compute_sync_data(vec![c], &mut meta);
    assert!(plan.courses_to_sync.is_empty());
    assert!(plan.questions_to_sync.is_empty());
    assert!(plan.course_evaluations_to_sync.is_empty());
    let ids: Vec<u128> = plan.question_options_to_sync.iter().map(|o| o.id).collect();
    assert_eq!(ids, vec![11]);
}

#[test]
fn changed_course_syncs_everything_new() {
    let mut c = course_one_question("c1");
    c.canonicalize();
    let mut meta = empty_metadata();

    let plan = compute_sync_data(vec![c], &mut meta);
    assert_eq!(plan.courses_to_sync.len(), 1);
    assert_eq!(plan.courses_to_sync[0].key, "c1");
    // synced parents travel with emptied child lists
    assert!(plan.courses_to_sync[0].questions.is_empty());
    assert!(plan.courses_to_sync[0].evaluations.is_empty());
    assert_eq!(plan.questions_to_sync.len(), 1);
    assert!(plan.questions_to_sync[0].question_options.is_empty());
    assert_eq!(plan.question_options_to_sync.len(), 2);
    assert_eq!(plan.course_evaluations_to_sync.len(), 1);
}

#[test]
fn question_with_stale_digest_is_synced_even_under_unchanged_course() {
    let mut c = course_one_question("c1");
    c.canonicalize();
    let mut meta = empty_metadata();
    meta.courses_metadata.insert("c1".to_string(), c.hash.clone());
    // the question is present remotely with a stale digest
    meta.questions_metadata.insert(1, "stale".to_string());
    meta.question_options_metadata
        .insert(11, c.questions[0].question_options[0].hash.clone());
    meta.question_options_metadata
        .insert(12, c.questions[0].question_options[1].hash.clone());
    meta.course_evaluations_metadata
        .insert("c1/final".to_string(), c.evaluations[0].hash.clone());

    let plan = compute_sync_data(vec![c], &mut meta);
    assert_eq!(plan.questions_to_sync.len(), 1);
    assert_eq!(plan.questions_to_sync[0].id, 1);
    assert!(plan.question_options_to_sync.is_empty());
}
