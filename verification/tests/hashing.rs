use medici_data_sync::data::{CourseEvaluationData, QuestionOptionData};
use medici_data_sync::ids::id_string;

#[test]
fn evaluation_digest_is_blake3_of_name() {
    let e = CourseEvaluationData::new("final".to_string(), "Final exam".to_string());
    let expected = blake3::hash("Final exam".as_bytes()).to_string();
    assert_eq!(e.hash, expected);
}

#[test]
fn option_digest_covers_semantic_fields() {
    let o = QuestionOptionData::new(3, "yes".to_string(), true, Some("why".to_string()));
    let mut bytes: Vec<u8> = Vec::new();
    bytes.extend_from_slice(&3u128.to_be_bytes());
    bytes.extend_from_slice(b"yes");
    bytes.push(1);
    bytes.extend_from_slice(b"why");
    assert_eq!(o.hash, blake3::hash(&bytes).to_string());
}

#[test]
fn option_digest_changes_with_text() {
    let a = QuestionOptionData::new(3, "yes".to_string(), true, None);
    let b = QuestionOptionData::new(3, "no".to_string(), true, None);
    assert_ne!(a.hash, b.hash);
}

#[test]
fn id_string_matches_canonical_uuid_form() {
    assert_eq!(id_string(0), "00000000-0000-0000-0000-000000000000");
    let x: u128 = 0x0123456789abcdef0123456789abcdef;
    assert_eq!(id_string(x), uuid::Uuid::from_u128(x).to_string());
}

#[test]
fn full_key_joins_with_separator() {
    assert_eq!(CourseEvaluationData::do_full_key("anatomy", "final"), "anatomy/final");
}

#[test]
fn from_raw_defaults() {
    let o = QuestionOptionData::from_raw(Some(9), "t".to_string(), None, None);
    assert_eq!(o.id, 9);
    assert!(!o.correct);
    let a = QuestionOptionData::from_raw(None, "t".to_string(), None, None);
    let b = QuestionOptionData::from_raw(None, "t".to_string(), None, None);
    assert_ne!(a.id, b.id);
}
