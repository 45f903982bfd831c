use medici_data_sync::data::{CheckError, CourseData, QuestionData, QuestionOptionData};

fn option(id: u128, text: &str, correct: bool) -> QuestionOptionData {
    QuestionOptionData::new(id, text.to_string(), correct, None)
}

fn question_with_options(options: Vec<QuestionOptionData>) -> QuestionData {
    QuestionData::new(
        7,
        "What is the answer?".to_string(),
        None,
        options,
        "final".to_string(),
        "book".to_string(),
        None,
    )
}

#[test]
fn rejects_single_option() {
    let q = question_with_options(vec![option(1, "a", true)]);
    assert_eq!(
        q.check(),
        Err(CheckError::OptionCount { question_id: 7, count: 1 })
    );
}

#[test]
fn rejects_six_options() {
    let opts = (0..6u128).map(|i| option(i, "x", i == 0)).collect();
    let q = question_with_options(opts);
    assert_eq!(
        q.check(),
        Err(CheckError::OptionCount { question_id: 7, count: 6 })
    );
}

#[test]
fn rejects_no_correct_option() {
    let q = question_with_options(vec![option(1, "a", false), option(2, "b", false)]);
    assert_eq!(
        q.check(),
        Err(CheckError::CorrectCount { question_id: 7, count: 0 })
    );
}

#[test]
fn rejects_two_correct_options() {
    let q = question_with_options(vec![
        option(1, "a", true),
        option(2, "b", true),
        option(3, "c", false),
    ]);
    assert_eq!(
        q.check(),
        Err(CheckError::CorrectCount { question_id: 7, count: 2 })
    );
}

#[test]
fn accepts_two_to_five_options_one_correct() {
    for n in 2..=5u128 {
        let opts = (0..n).map(|i| option(i, "t", i == 0)).collect();
        let q = question_with_options(opts);
        assert_eq!(q.check(), Ok(()));
    }
}

#[test]
fn course_check_reports_first_offender() {
    let good = question_with_options(vec![option(1, "a", true), option(2, "b", false)]);
    let mut bad = question_with_options(vec![option(3, "c", true)]);
    bad.id = 99;
    bad.set_hash();
    let course = CourseData::new(
        "c1".to_string(),
        "Course".to_string(),
        "C".to_string(),
        vec![],
        None,
        vec![good, bad],
        vec![],
    );
    assert_eq!(
        course.check(),
        Err(CheckError::OptionCount { question_id: 99, count: 1 })
    );
}
