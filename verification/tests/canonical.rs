use medici_data_sync::data::{CourseData, DateData, QuestionData, QuestionOptionData};

fn option(id: u128, text: &str, correct: bool, explanation: Option<&str>) -> QuestionOptionData {
    QuestionOptionData::new(id, text.to_string(), correct, explanation.map(|s| s.to_string()))
}

fn question(
    id: u128,
    text: &str,
    evaluation: &str,
    asked_at: Option<DateData>,
    options: Vec<QuestionOptionData>,
) -> QuestionData {
    QuestionData::new(
        id,
        text.to_string(),
        None,
        options,
        evaluation.to_string(),
        "source".to_string(),
        asked_at,
    )
}

fn course(key: &str, questions: Vec<QuestionData>) -> CourseData {
    CourseData::new(
        key.to_string(),
        "Course".to_string(),
        "C".to_string(),
        vec!["alias".to_string()],
        Some(2024),
        questions,
        vec![],
    )
}

fn assert_same_course(a: &CourseData, b: &CourseData) {
    assert_eq!(a.key, b.key);
    assert_eq!(a.name, b.name);
    assert_eq!(a.short_name, b.short_name);
    assert_eq!(a.aliases, b.aliases);
    assert_eq!(a.year, b.year);
    assert_eq!(a.hash, b.hash);
    assert_eq!(a.questions.len(), b.questions.len());
    for (qa, qb) in a.questions.iter().zip(b.questions.iter()) {
        assert_eq!(qa.id, qb.id);
        assert_eq!(qa.text, qb.text);
        assert_eq!(qa.evaluation, qb.evaluation);
        assert_eq!(qa.course_key, qb.course_key);
        assert_eq!(qa.hash, qb.hash);
        assert_eq!(qa.question_options.len(), qb.question_options.len());
        for (oa, ob) in qa.question_options.iter().zip(qb.question_options.iter()) {
            assert_eq!(oa.id, ob.id);
            assert_eq!(oa.text, ob.text);
            assert_eq!(oa.correct, ob.correct);
            assert_eq!(oa.explanation, ob.explanation);
            assert_eq!(oa.question_id, ob.question_id);
            assert_eq!(oa.hash, ob.hash);
        }
    }
    assert_eq!(a.evaluations.len(), b.evaluations.len());
    for (ea, eb) in a.evaluations.iter().zip(b.evaluations.iter()) {
        assert_eq!(ea.key, eb.key);
        assert_eq!(ea.name, eb.name);
        assert_eq!(ea.course_key, eb.course_key);
        assert_eq!(ea.hash, eb.hash);
    }
}

#[test]
fn canonicalize_is_idempotent() {
    let mut c = course(
        "c1",
        vec![
            question(
                2,
                "  zeta?  ",
                "final",
                None,
                vec![option(21, " b ", false, None), option(22, "a", true, None)],
            ),
            question(
                1,
                "alpha?",
                "midterm",
                Some(DateData { year: 2023, month: 5, day: 1 }),
                vec![option(11, "yes", true, None), option(12, "no", false, None)],
            ),
        ],
    );
    c.canonicalize();
    // rebuild an identical copy of the canonical course by hand
    let mut again = clone_course(&c);
    again.canonicalize();
    assert_same_course(&c, &again);
}

fn clone_course(c: &CourseData) -> CourseData {
    let mut questions = Vec::new();
    for q in &c.questions {
        let mut options = Vec::new();
        for o in &q.question_options {
            let mut oo = QuestionOptionData::new(
                o.id,
                o.text.clone(),
                o.correct,
                o.explanation.clone(),
            );
            oo.question_id = o.question_id;
            oo.hash = o.hash.clone();
            options.push(oo);
        }
        let mut qq = QuestionData::new(
            q.id,
            q.text.clone(),
            q.image_file_name.clone(),
            options,
            q.evaluation.clone(),
            q.source.clone(),
            q.asked_at,
        );
        qq.course_key = q.course_key.clone();
        qq.hash = q.hash.clone();
        questions.push(qq);
    }
    let mut evaluations = Vec::new();
    for e in &c.evaluations {
        let mut ee = medici_data_sync::data::CourseEvaluationData::new(
            e.key.clone(),
            e.name.clone(),
        );
        ee.course_key = e.course_key.clone();
        ee.hash = e.hash.clone();
        evaluations.push(ee);
    }
    let mut cc = CourseData::new(
        c.key.clone(),
        c.name.clone(),
        c.short_name.clone(),
        c.aliases.clone(),
        c.year,
        questions,
        evaluations,
    );
    cc.hash = c.hash.clone();
    cc
}

#[test]
fn hash_stable_under_permutation() {
    let mk = |flip_questions: bool, flip_options: bool| {
        let q1 = |flip: bool| {
            let mut opts = vec![option(11, "yes", true, None), option(12, "no", false, None)];
            if flip {
                opts.reverse();
            }
            question(1, "alpha?", "midterm", None, opts)
        };
        let q2 = question(2, "beta?", "final", None, vec![
            option(21, "b", false, None),
            option(22, "a", true, None),
        ]);
        let mut qs = vec![q1(flip_options), q2];
        if flip_questions {
            qs.reverse();
        }
        course("c1", qs)
    };
    let mut a = mk(false, false);
    let mut b = mk(true, true);
    a.canonicalize();
    b.canonicalize();
    assert_eq!(a.hash, b.hash);
    assert_same_course(&a, &b);
}

#[test]
fn dedup_retains_exactly_one_duplicate() {
    let dup = |id: u128, oid: u128| {
        question(
            id,
            "same text",
            "final",
            None,
            vec![option(oid, "yes", true, Some("why")), option(oid + 1, "no", false, None)],
        )
    };
    let mut c = course("c1", vec![dup(1, 11), dup(2, 21)]);
    c.canonicalize();
    assert_eq!(c.questions.len(), 1);
    assert_eq!(c.questions[0].id, 1);
}

#[test]
fn canonical_order_and_trim() {
    let mut c = course(
        "c1",
        vec![
            question(2, "  b?  ", "final", None, vec![
                option(21, "  w2  ", false, None),
                option(22, "w1", true, None),
            ]),
            question(1, "a?", "final", None, vec![
                option(11, "v1", true, None),
                option(12, "v0", false, None),
            ]),
        ],
    );
    c.canonicalize();
    assert_eq!(c.questions[0].text, "a?");
    assert_eq!(c.questions[1].text, "b?");
    // correct option first, the rest by text; texts trimmed
    assert_eq!(c.questions[1].question_options[0].text, "w1");
    assert!(c.questions[1].question_options[0].correct);
    assert_eq!(c.questions[1].question_options[1].text, "w2");
    // parent keys attached
    assert_eq!(c.questions[0].course_key.as_deref(), Some("c1"));
    assert_eq!(c.questions[0].question_options[0].question_id, Some(1));
}

#[test]
fn image_renamed_to_identifier() {
    let mut q = question(5, "q?", "final", None, vec![
        option(51, "a", true, None),
        option(52, "b", false, None),
    ]);
    q.image_file_name = Some("figure.png".to_string());
    q.set_hash();
    let mut c = course("c1", vec![q]);
    let renames = c.canonicalize();
    let expected = format!("{}.png", medici_data_sync::ids::id_string(5));
    assert_eq!(c.questions[0].image_file_name.as_deref(), Some(expected.as_str()));
    assert_eq!(renames.len(), 1);
    assert_eq!(renames[0].from, "figure.png");
    assert_eq!(renames[0].to, expected);
}

#[test]
fn questions_sort_by_evaluation_date_text_id() {
    let d = |m: u8| Some(DateData { year: 2024, month: m, day: 1 });
    let mk = |id: u128, ev: &str, at: Option<DateData>, text: &str| {
        question(id, text, ev, at, vec![
            option(id * 10, "a", true, None),
            option(id * 10 + 1, "b", false, None),
        ])
    };
    let mut c = course(
        "c1",
        vec![
            mk(4, "b", None, "t"),
            mk(3, "a", d(2), "t"),
            mk(2, "a", d(1), "z"),
            mk(1, "a", d(1), "a"),
        ],
    );
    c.canonicalize();
    let ids: Vec<u128> = c.questions.iter().map(|q| q.id).collect();
    assert_eq!(ids, vec![1, 2, 3, 4]);
}
