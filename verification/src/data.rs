//! The four entity kinds of the corpus — courses, questions, answer
//! options and evaluations — with their views, canonical byte
//! encodings, content digests, structural validation and derived keys.

use vstd::prelude::*;
use vstd::string::*;
use vstd::utf8::encode_utf8;
use crate::strings::{
    trim_spec, trim_string, push_str_bytes, u128_be_bytes, push_u128_be_bytes, i16_be_bytes,
    push_i16_be_bytes, i32_be_bytes, push_i32_be_bytes,
};
use crate::hash::{blake3_hex, blake3_hex_of};
use crate::ids::fresh_id;

verus! {

/// A calendar date, as plain values. Ordered by year, then month, then
/// day.
#[derive(Clone, Copy, PartialEq, Eq, Structural, Debug)]
pub struct DateData {
    pub year: i32,
    pub month: u8,
    pub day: u8,
}

pub open spec fn date_le(a: DateData, b: DateData) -> bool {
    if a.year != b.year {
        a.year < b.year
    } else if a.month != b.month {
        a.month < b.month
    } else {
        a.day <= b.day
    }
}

/// Order on optional dates: an absent date comes first.
pub open spec fn date_opt_le(a: Option<DateData>, b: Option<DateData>) -> bool {
    match (a, b) {
        (Option::None, _) => true,
        (Option::Some(_), Option::None) => false,
        (Option::Some(x), Option::Some(y)) => date_le(x, y),
    }
}

pub fn date_opt_le_exec(a: &Option<DateData>, b: &Option<DateData>) -> (r: bool)
    ensures
        r == date_opt_le(*a, *b),
{
    match (a, b) {
        (Option::None, _) => true,
        (Option::Some(_), Option::None) => false,
        (Option::Some(x), Option::Some(y)) => {
            if x.year != y.year {
                x.year < y.year
            } else if x.month != y.month {
                x.month < y.month
            } else {
                x.day <= y.day
            }
        },
    }
}

/// The canonical byte encoding of a date inside a hash input.
pub open spec fn date_bytes(d: DateData) -> Seq<u8> {
    i32_be_bytes(d.year) + seq![d.month, d.day]
}

pub open spec fn opt_string_view(o: Option<String>) -> Option<Seq<char>> {
    match o {
        Option::Some(s) => Option::Some(s@),
        Option::None => Option::None,
    }
}

fn opt_string_eq(a: &Option<String>, b: &Option<String>) -> (r: bool)
    ensures
        r == (opt_string_view(*a) == opt_string_view(*b)),
{
    match a {
        Option::Some(x) => match b {
            Option::Some(y) => String::eq(x, y),
            Option::None => false,
        },
        Option::None => b.is_none(),
    }
}

// ------------------------------------------------------------------
// Answer options
// ------------------------------------------------------------------

/// One answer option of a question.
pub struct QuestionOptionData {
    pub id: u128,
    pub question_id: Option<u128>,
    pub text: String,
    pub correct: bool,
    pub explanation: Option<String>,
    pub hash: String,
}

pub ghost struct QuestionOptionView {
    pub id: u128,
    pub question_id: Option<u128>,
    pub text: Seq<char>,
    pub correct: bool,
    pub explanation: Option<Seq<char>>,
    pub hash: Seq<char>,
}

impl View for QuestionOptionData {
    type V = QuestionOptionView;

    open spec fn view(&self) -> QuestionOptionView {
        QuestionOptionView {
            id: self.id,
            question_id: self.question_id,
            text: self.text@,
            correct: self.correct,
            explanation: opt_string_view(self.explanation),
            hash: self.hash@,
        }
    }
}

pub open spec fn options_view(v: Vec<QuestionOptionData>) -> Seq<QuestionOptionView> {
    v@.map_values(|o: QuestionOptionData| o@)
}

/// The semantic content of an option: what duplicate detection
/// compares. The identifier and the digest are not content.
pub open spec fn option_content(o: QuestionOptionView) -> (Seq<char>, bool, Option<Seq<char>>) {
    (o.text, o.correct, o.explanation)
}

/// How often content `k` occurs among the options `s`.
pub open spec fn count_content(
    s: Seq<QuestionOptionView>,
    k: (Seq<char>, bool, Option<Seq<char>>),
) -> nat
    decreases s.len(),
{
    if s.len() == 0 {
        0
    } else {
        count_content(s.drop_last(), k) + (if option_content(s.last()) == k {
            1nat
        } else {
            0nat
        })
    }
}

pub proof fn lemma_count_content_pos(
    s: Seq<QuestionOptionView>,
    k: (Seq<char>, bool, Option<Seq<char>>),
)
    ensures
        count_content(s, k) > 0 <==> exists|i: int|
            0 <= i < s.len() && option_content(s[i]) == k,
    decreases s.len(),
{
    if s.len() > 0 {
        lemma_count_content_pos(s.drop_last(), k);
        if count_content(s, k) > 0 {
            if option_content(s.last()) == k {
                assert(option_content(s[s.len() - 1]) == k);
            } else {
                let i = choose|i: int|
                    0 <= i < s.drop_last().len() && option_content(s.drop_last()[i]) == k;
                assert(option_content(s[i]) == k);
            }
        }
        if exists|i: int| 0 <= i < s.len() && option_content(s[i]) == k {
            let i = choose|i: int| 0 <= i < s.len() && option_content(s[i]) == k;
            if i < s.len() - 1 {
                assert(option_content(s.drop_last()[i]) == k);
            }
        }
    }
}

/// The canonical byte encoding of an option's semantic fields: its
/// identifier, its text, the correctness flag, and the explanation if
/// one is present.
pub open spec fn option_hash_input(o: QuestionOptionView) -> Seq<u8> {
    u128_be_bytes(o.id) + encode_utf8(o.text) + seq![
        (if o.correct {
            1u8
        } else {
            0u8
        }),
    ] + (match o.explanation {
        Option::Some(e) => encode_utf8(e),
        Option::None => Seq::<u8>::empty(),
    })
}

/// An option's view with its digest recomputed from its current
/// fields.
pub open spec fn option_rehashed(o: QuestionOptionView) -> QuestionOptionView {
    QuestionOptionView { hash: blake3_hex_of(option_hash_input(o)), ..o }
}

impl QuestionOptionData {
    /// The canonical hash input bytes of this option.
    pub fn hashable_data(&self) -> (r: Vec<u8>)
        ensures
            r@ == option_hash_input(self@),
    {
        let mut bytes: Vec<u8> = Vec::new();
        push_u128_be_bytes(&mut bytes, self.id);
        push_str_bytes(&mut bytes, self.text.as_str());
        bytes.push(if self.correct {
            1
        } else {
            0
        });
        match &self.explanation {
            Option::Some(e) => push_str_bytes(&mut bytes, e.as_str()),
            Option::None => (),
        }
        proof {
            assert(bytes@ =~= option_hash_input(self@));
        }
        bytes
    }

    /// The digest of the current field values.
    pub fn hash_data(&self) -> (r: String)
        ensures
            r@ == blake3_hex_of(option_hash_input(self@)),
    {
        blake3_hex(&self.hashable_data())
    }

    /// Recomputes the stored digest from the current field values.
    pub fn set_hash(&mut self)
        ensures
            final(self)@ == option_rehashed(old(self)@),
    {
        let data = self.hash_data();
        self.hash = data;
    }

    pub fn new(id: u128, text: String, correct: bool, explanation: Option<String>) -> (r: Self)
        ensures
            r@ == option_rehashed(
                (QuestionOptionView {
                    id: id,
                    question_id: Option::None,
                    text: text@,
                    correct: correct,
                    explanation: opt_string_view(explanation),
                    hash: Seq::<char>::empty(),
                }),
            ),
    {
        let mut data = QuestionOptionData {
            id,
            question_id: None,
            text,
            correct,
            explanation,
            hash: String::new(),
        };
        data.set_hash();
        data
    }

    /// Builds an option from raw authored input. A missing identifier
    /// is drawn at random; a missing correctness flag means incorrect.
    pub fn from_raw(
        id: Option<u128>,
        text: String,
        correct: Option<bool>,
        explanation: Option<String>,
    ) -> (r: Self)
        ensures
            r@ == option_rehashed(
                (QuestionOptionView {
                    id: r@.id,
                    question_id: Option::None,
                    text: text@,
                    correct: (match correct {
                        Option::Some(c) => c,
                        Option::None => false,
                    }),
                    explanation: opt_string_view(explanation),
                    hash: Seq::<char>::empty(),
                }),
            ),
            id is Some ==> r@.id == id->0,
    {
        let id_val = match id {
            Option::Some(i) => i,
            Option::None => fresh_id(),
        };
        let correct_val = match correct {
            Option::Some(c) => c,
            Option::None => false,
        };
        Self::new(id_val, text, correct_val, explanation)
    }

    /// Whether this option and `other` carry the same semantic
    /// content.
    pub fn eq_data(&self, other: &Self) -> (r: bool)
        ensures
            r == (option_content(self@) == option_content(other@)),
    {
        self.text == other.text && self.correct == other.correct && opt_string_eq(
            &self.explanation,
            &other.explanation,
        )
    }

    /// Canonicalizes the derived text field.
    pub fn format(&mut self)
        ensures
            final(self)@ == (QuestionOptionView { text: trim_spec(old(self)@.text), ..old(self)@ }),
    {
        self.text = trim_string(&self.text);
    }

    pub fn set_question_id(&mut self, question_id: u128)
        ensures
            final(self)@ == (QuestionOptionView {
                question_id: Option::Some(question_id),
                ..old(self)@
            }),
    {
        self.question_id = Some(question_id);
    }
}

// ------------------------------------------------------------------
// Questions
// ------------------------------------------------------------------

/// A question of a course, owning its answer options.
pub struct QuestionData {
    pub id: u128,
    pub course_key: Option<String>,
    pub evaluation: String,
    pub source: String,
    pub asked_at: Option<DateData>,
    pub text: String,
    pub image_file_name: Option<String>,
    pub question_options: Vec<QuestionOptionData>,
    pub hash: String,
}

pub ghost struct QuestionView {
    pub id: u128,
    pub course_key: Option<Seq<char>>,
    pub evaluation: Seq<char>,
    pub source: Seq<char>,
    pub asked_at: Option<DateData>,
    pub text: Seq<char>,
    pub image_file_name: Option<Seq<char>>,
    pub question_options: Seq<QuestionOptionView>,
    pub hash: Seq<char>,
}

impl View for QuestionData {
    type V = QuestionView;

    open spec fn view(&self) -> QuestionView {
        QuestionView {
            id: self.id,
            course_key: opt_string_view(self.course_key),
            evaluation: self.evaluation@,
            source: self.source@,
            asked_at: self.asked_at,
            text: self.text@,
            image_file_name: opt_string_view(self.image_file_name),
            question_options: options_view(self.question_options),
            hash: self.hash@,
        }
    }
}

pub open spec fn questions_view(v: Vec<QuestionData>) -> Seq<QuestionView> {
    v@.map_values(|q: QuestionData| q@)
}

/// Two questions within a course are duplicates iff their text, their
/// evaluation label and the full multiset of their options' contents
/// match.
pub open spec fn question_eq_data(a: QuestionView, b: QuestionView) -> bool {
    a.text == b.text && a.evaluation == b.evaluation && a.question_options.len()
        == b.question_options.len() && (forall|k: (Seq<char>, bool, Option<Seq<char>>)|
        #[trigger] count_content(a.question_options, k) == count_content(b.question_options, k))
}

/// The concatenated digests of a question's options, in order.
pub open spec fn option_hashes(s: Seq<QuestionOptionView>) -> Seq<u8>
    decreases s.len(),
{
    if s.len() == 0 {
        Seq::<u8>::empty()
    } else {
        option_hashes(s.drop_last()) + encode_utf8(s.last().hash)
    }
}

/// The canonical byte encoding of a question's semantic fields and its
/// options' digests.
pub open spec fn question_hash_input(q: QuestionView) -> Seq<u8> {
    u128_be_bytes(q.id) + encode_utf8(q.text) + (match q.image_file_name {
        Option::Some(n) => encode_utf8(n),
        Option::None => Seq::<u8>::empty(),
    }) + option_hashes(q.question_options) + encode_utf8(q.evaluation) + encode_utf8(q.source) + (
    match q.asked_at {
        Option::Some(d) => date_bytes(d),
        Option::None => Seq::<u8>::empty(),
    })
}

pub open spec fn question_rehashed(q: QuestionView) -> QuestionView {
    QuestionView { hash: blake3_hex_of(question_hash_input(q)), ..q }
}

/// How many of the options are marked correct.
pub open spec fn correct_count(s: Seq<QuestionOptionView>) -> nat
    decreases s.len(),
{
    if s.len() == 0 {
        0
    } else {
        correct_count(s.drop_last()) + (if s.last().correct {
            1nat
        } else {
            0nat
        })
    }
}

/// The structural invariant of a question: between two and five
/// options, exactly one of them correct.
pub open spec fn question_valid(q: QuestionView) -> bool {
    2 <= q.question_options.len() <= 5 && correct_count(q.question_options) == 1
}

/// A structural rule violation, reported with the offending question's
/// identifier.
#[derive(Clone, Copy, PartialEq, Eq, Structural, Debug)]
pub enum CheckError {
    /// The question has fewer than two or more than five options.
    OptionCount { question_id: u128, count: usize },
    /// The question does not have exactly one correct option.
    CorrectCount { question_id: u128, count: usize },
}

/// The validation outcome for one question.
pub open spec fn question_check_spec(q: QuestionView) -> Result<(), CheckError> {
    if q.question_options.len() < 2 || q.question_options.len() > 5 {
        Result::Err(
            CheckError::OptionCount {
                question_id: q.id,
                count: q.question_options.len() as usize,
            },
        )
    } else if correct_count(q.question_options) != 1 {
        Result::Err(
            CheckError::CorrectCount {
                question_id: q.id,
                count: correct_count(q.question_options) as usize,
            },
        )
    } else {
        Result::Ok(())
    }
}

impl QuestionData {
    /// The canonical hash input bytes of this question.
    pub fn hashable_data(&self) -> (r: Vec<u8>)
        ensures
            r@ == question_hash_input(self@),
    {
        let mut bytes: Vec<u8> = Vec::new();
        push_u128_be_bytes(&mut bytes, self.id);
        push_str_bytes(&mut bytes, self.text.as_str());
        match &self.image_file_name {
            Option::Some(n) => push_str_bytes(&mut bytes, n.as_str()),
            Option::None => (),
        }
        let ghost pre = bytes@;
        let mut i: usize = 0;
        while i < self.question_options.len()
            invariant
                i <= self.question_options.len(),
                bytes@ == pre + option_hashes(options_view(self.question_options).take(i as int)),
            decreases self.question_options.len() - i,
        {
            push_str_bytes(&mut bytes, self.question_options[i].hash.as_str());
            proof {
                let ov = options_view(self.question_options);
                assert(ov.take(i + 1).drop_last() =~= ov.take(i as int));
                assert(ov.take(i + 1).last() == ov[i as int]);
            }
            i = i + 1;
        }
        proof {
            let ov = options_view(self.question_options);
            assert(ov.take(ov.len() as int) =~= ov);
        }
        push_str_bytes(&mut bytes, self.evaluation.as_str());
        push_str_bytes(&mut bytes, self.source.as_str());
        match &self.asked_at {
            Option::Some(d) => {
                push_i32_be_bytes(&mut bytes, d.year);
                bytes.push(d.month);
                bytes.push(d.day);
            },
            Option::None => (),
        }
        proof {
            assert(bytes@ =~= question_hash_input(self@));
        }
        bytes
    }

    /// The digest of the current field values and the options' stored
    /// digests.
    pub fn hash_data(&self) -> (r: String)
        ensures
            r@ == blake3_hex_of(question_hash_input(self@)),
    {
        blake3_hex(&self.hashable_data())
    }

    /// Recomputes the stored digest from the current field values and
    /// the options' stored digests.
    pub fn set_hash(&mut self)
        ensures
            final(self)@ == question_rehashed(old(self)@),
    {
        let data = self.hash_data();
        self.hash = data;
    }

    pub fn new(
        id: u128,
        text: String,
        image_file_name: Option<String>,
        question_options: Vec<QuestionOptionData>,
        evaluation: String,
        source: String,
        asked_at: Option<DateData>,
    ) -> (r: Self)
        ensures
            r@ == question_rehashed(
                (QuestionView {
                    id: id,
                    course_key: Option::None,
                    evaluation: evaluation@,
                    source: source@,
                    asked_at: asked_at,
                    text: text@,
                    image_file_name: opt_string_view(image_file_name),
                    question_options: options_view(question_options),
                    hash: Seq::<char>::empty(),
                }),
            ),
    {
        let mut data = QuestionData {
            id,
            course_key: None,
            evaluation,
            source,
            asked_at,
            text,
            image_file_name,
            question_options,
            hash: String::new(),
        };
        data.set_hash();
        data
    }

    /// Builds a question from raw authored input. A missing identifier
    /// is drawn at random.
    pub fn from_raw(
        id: Option<u128>,
        text: String,
        image_file_name: Option<String>,
        question_options: Vec<QuestionOptionData>,
        evaluation: String,
        source: String,
        asked_at: Option<DateData>,
    ) -> (r: Self)
        ensures
            r@ == question_rehashed(
                (QuestionView {
                    id: r@.id,
                    course_key: Option::None,
                    evaluation: evaluation@,
                    source: source@,
                    asked_at: asked_at,
                    text: text@,
                    image_file_name: opt_string_view(image_file_name),
                    question_options: options_view(question_options),
                    hash: Seq::<char>::empty(),
                }),
            ),
            id is Some ==> r@.id == id->0,
    {
        let id_val = match id {
            Option::Some(i) => i,
            Option::None => fresh_id(),
        };
        Self::new(id_val, text, image_file_name, question_options, evaluation, source, asked_at)
    }

    fn count_matching(&self, probe: &QuestionOptionData) -> (n: usize)
        ensures
            n == count_content(options_view(self.question_options), option_content(probe@)),
    {
        let mut n: usize = 0;
        let mut i: usize = 0;
        while i < self.question_options.len()
            invariant
                i <= self.question_options.len(),
                n <= i,
                n == count_content(
                    options_view(self.question_options).take(i as int),
                    option_content(probe@),
                ),
            decreases self.question_options.len() - i,
        {
            proof {
                let ov = options_view(self.question_options);
                assert(ov.take(i + 1).drop_last() =~= ov.take(i as int));
                assert(ov.take(i + 1).last() == ov[i as int]);
            }
            if self.question_options[i].eq_data(probe) {
                n = n + 1;
            }
            i = i + 1;
        }
        proof {
            let ov = options_view(self.question_options);
            assert(ov.take(ov.len() as int) =~= ov);
        }
        n
    }

    /// Whether this question and `other` are duplicates: same text,
    /// same evaluation label, and the same multiset of option
    /// contents.
    pub fn eq_data(&self, other: &Self) -> (r: bool)
        ensures
            r == question_eq_data(self@, other@),
    {
        let ghost av = options_view(self.question_options);
        let ghost bv = options_view(other.question_options);
        if !(self.text == other.text) {
            return false;
        }
        if !(self.evaluation == other.evaluation) {
            return false;
        }
        if self.question_options.len() != other.question_options.len() {
            return false;
        }
        let mut i: usize = 0;
        while i < self.question_options.len()
            invariant
                i <= self.question_options.len(),
                av == options_view(self.question_options),
                bv == options_view(other.question_options),
                forall|j: int|
                    0 <= j < i ==> count_content(av, #[trigger] option_content(av[j]))
                        == count_content(bv, option_content(av[j])),
            decreases self.question_options.len() - i,
        {
            let ca = self.count_matching(&self.question_options[i]);
            let cb = other.count_matching(&self.question_options[i]);
            if ca != cb {
                return false;
            }
            i = i + 1;
        }
        let mut j: usize = 0;
        while j < other.question_options.len()
            invariant
                j <= other.question_options.len(),
                av == options_view(self.question_options),
                bv == options_view(other.question_options),
                forall|l: int|
                    0 <= l < av.len() ==> count_content(av, #[trigger] option_content(av[l]))
                        == count_content(bv, option_content(av[l])),
                forall|l: int|
                    0 <= l < j ==> count_content(av, #[trigger] option_content(bv[l]))
                        == count_content(bv, option_content(bv[l])),
            decreases other.question_options.len() - j,
        {
            let ca = self.count_matching(&other.question_options[j]);
            let cb = other.count_matching(&other.question_options[j]);
            if ca != cb {
                return false;
            }
            j = j + 1;
        }
        proof {
            assert forall|k: (Seq<char>, bool, Option<Seq<char>>)|
                #[trigger] count_content(av, k) == count_content(bv, k) by {
                lemma_count_content_pos(av, k);
                lemma_count_content_pos(bv, k);
                if count_content(av, k) > 0 {
                    let l = choose|l: int| 0 <= l < av.len() && option_content(av[l]) == k;
                    assert(count_content(av, option_content(av[l])) == count_content(
                        bv,
                        option_content(av[l]),
                    ));
                } else if count_content(bv, k) > 0 {
                    let l = choose|l: int| 0 <= l < bv.len() && option_content(bv[l]) == k;
                    assert(count_content(av, option_content(bv[l])) == count_content(
                        bv,
                        option_content(bv[l]),
                    ));
                }
            }
        }
        true
    }

    /// Validates the structural invariant, reporting the rule broken
    /// and this question's identifier.
    pub fn check(&self) -> (r: Result<(), CheckError>)
        ensures
            r == question_check_spec(self@),
            r is Ok <==> question_valid(self@),
    {
        let n = self.question_options.len();
        if n < 2 || n > 5 {
            return Err(CheckError::OptionCount { question_id: self.id, count: n });
        }
        let mut cc: usize = 0;
        let mut i: usize = 0;
        while i < self.question_options.len()
            invariant
                i <= self.question_options.len(),
                cc <= i,
                cc == correct_count(options_view(self.question_options).take(i as int)),
            decreases self.question_options.len() - i,
        {
            proof {
                let ov = options_view(self.question_options);
                assert(ov.take(i + 1).drop_last() =~= ov.take(i as int));
                assert(ov.take(i + 1).last() == ov[i as int]);
            }
            if self.question_options[i].correct {
                cc = cc + 1;
            }
            i = i + 1;
        }
        proof {
            let ov = options_view(self.question_options);
            assert(ov.take(ov.len() as int) =~= ov);
        }
        if cc != 1 {
            return Err(CheckError::CorrectCount { question_id: self.id, count: cc });
        }
        Ok(())
    }

    pub fn set_course_key(&mut self, course_key: String)
        ensures
            final(self)@ == (QuestionView {
                course_key: Option::Some(course_key@),
                ..old(self)@
            }),
    {
        self.course_key = Some(course_key);
    }

    /// The composite key of the evaluation this question references.
    pub fn full_evaluation_key(&self) -> (r: String)
        requires
            self@.course_key is Some,
        ensures
            r@ == full_key_spec(self@.course_key->0, self@.evaluation),
    {
        match &self.course_key {
            Option::Some(ck) => CourseEvaluationData::do_full_key(ck.as_str(), self.evaluation.as_str()),
            Option::None => unreached(),
        }
    }

    /// The image's path below the image root: the course key, a
    /// separator, and the image file name.
    pub fn full_image_path(&self) -> (r: Option<String>)
        requires
            self@.course_key is Some,
        ensures
            r is Some <==> self@.image_file_name is Some,
            r is Some ==> r->0@ == full_key_spec(self@.course_key->0, self@.image_file_name->0),
    {
        match (&self.course_key, &self.image_file_name) {
            (Option::Some(ck), Option::Some(n)) => {
                Some(CourseEvaluationData::do_full_key(ck.as_str(), n.as_str()))
            },
            (_, Option::None) => None,
            (Option::None, _) => unreached(),
        }
    }
}

// ------------------------------------------------------------------
// Evaluations
// ------------------------------------------------------------------

/// The composite key of an evaluation: course key, separator, local
/// key.
pub open spec fn full_key_spec(course_key: Seq<char>, key: Seq<char>) -> Seq<char> {
    course_key + "/"@ + key
}

/// An evaluation of a course, identified by its composite key.
pub struct CourseEvaluationData {
    pub course_key: Option<String>,
    pub key: String,
    pub name: String,
    pub hash: String,
}

pub ghost struct CourseEvaluationView {
    pub course_key: Option<Seq<char>>,
    pub key: Seq<char>,
    pub name: Seq<char>,
    pub hash: Seq<char>,
}

impl View for CourseEvaluationData {
    type V = CourseEvaluationView;

    open spec fn view(&self) -> CourseEvaluationView {
        CourseEvaluationView {
            course_key: opt_string_view(self.course_key),
            key: self.key@,
            name: self.name@,
            hash: self.hash@,
        }
    }
}

pub open spec fn evaluations_view(v: Vec<CourseEvaluationData>) -> Seq<CourseEvaluationView> {
    v@.map_values(|e: CourseEvaluationData| e@)
}

/// The canonical byte encoding of an evaluation: its name alone.
pub open spec fn evaluation_hash_input(e: CourseEvaluationView) -> Seq<u8> {
    encode_utf8(e.name)
}

pub open spec fn evaluation_rehashed(e: CourseEvaluationView) -> CourseEvaluationView {
    CourseEvaluationView { hash: blake3_hex_of(evaluation_hash_input(e)), ..e }
}

impl CourseEvaluationData {
    /// The canonical hash input bytes of this evaluation.
    pub fn hashable_data(&self) -> (r: Vec<u8>)
        ensures
            r@ == evaluation_hash_input(self@),
    {
        let mut bytes: Vec<u8> = Vec::new();
        push_str_bytes(&mut bytes, self.name.as_str());
        proof {
            assert(bytes@ =~= evaluation_hash_input(self@));
        }
        bytes
    }

    /// The digest of the current field values.
    pub fn hash_data(&self) -> (r: String)
        ensures
            r@ == blake3_hex_of(evaluation_hash_input(self@)),
    {
        blake3_hex(&self.hashable_data())
    }

    /// Recomputes the stored digest from the current field values.
    pub fn set_hash(&mut self)
        ensures
            final(self)@ == evaluation_rehashed(old(self)@),
    {
        let data = self.hash_data();
        self.hash = data;
    }

    pub fn new(key: String, name: String) -> (r: Self)
        ensures
            r@ == evaluation_rehashed(
                (CourseEvaluationView {
                    course_key: Option::None,
                    key: key@,
                    name: name@,
                    hash: Seq::<char>::empty(),
                }),
            ),
    {
        let mut data = CourseEvaluationData { course_key: None, key, name, hash: String::new() };
        data.set_hash();
        data
    }

    pub fn set_course_key(&mut self, course_key: String)
        ensures
            final(self)@ == (CourseEvaluationView {
                course_key: Option::Some(course_key@),
                ..old(self)@
            }),
    {
        self.course_key = Some(course_key);
    }

    /// The composite key of this evaluation.
    pub fn full_key(&self) -> (r: String)
        requires
            self@.course_key is Some,
        ensures
            r@ == full_key_spec(self@.course_key->0, self@.key),
    {
        match &self.course_key {
            Option::Some(ck) => Self::do_full_key(ck.as_str(), self.key.as_str()),
            Option::None => unreached(),
        }
    }

    /// Joins a course key and a local key with the separator.
    pub fn do_full_key(course_key: &str, key: &str) -> (r: String)
        ensures
            r@ == full_key_spec(course_key@, key@),
    {
        let mut s = course_key.to_owned();
        s.append("/");
        s.append(key);
        s
    }
}

// ------------------------------------------------------------------
// Courses
// ------------------------------------------------------------------

/// A course: the root entity, owning its questions and evaluations.
pub struct CourseData {
    pub key: String,
    pub name: String,
    pub short_name: String,
    pub aliases: Vec<String>,
    pub year: Option<i16>,
    pub questions: Vec<QuestionData>,
    pub evaluations: Vec<CourseEvaluationData>,
    pub hash: String,
}

pub ghost struct CourseView {
    pub key: Seq<char>,
    pub name: Seq<char>,
    pub short_name: Seq<char>,
    pub aliases: Seq<Seq<char>>,
    pub year: Option<i16>,
    pub questions: Seq<QuestionView>,
    pub evaluations: Seq<CourseEvaluationView>,
    pub hash: Seq<char>,
}

impl View for CourseData {
    type V = CourseView;

    open spec fn view(&self) -> CourseView {
        CourseView {
            key: self.key@,
            name: self.name@,
            short_name: self.short_name@,
            aliases: self.aliases@.map_values(|a: String| a@),
            year: self.year,
            questions: questions_view(self.questions),
            evaluations: evaluations_view(self.evaluations),
            hash: self.hash@,
        }
    }
}

/// The concatenated UTF-8 bytes of the aliases, in order.
pub open spec fn aliases_bytes(s: Seq<Seq<char>>) -> Seq<u8>
    decreases s.len(),
{
    if s.len() == 0 {
        Seq::<u8>::empty()
    } else {
        aliases_bytes(s.drop_last()) + encode_utf8(s.last())
    }
}

/// The concatenated digests of a course's questions, in order.
pub open spec fn question_hashes(s: Seq<QuestionView>) -> Seq<u8>
    decreases s.len(),
{
    if s.len() == 0 {
        Seq::<u8>::empty()
    } else {
        question_hashes(s.drop_last()) + encode_utf8(s.last().hash)
    }
}

/// The concatenated digests of a course's evaluations, in order.
pub open spec fn evaluation_hashes(s: Seq<CourseEvaluationView>) -> Seq<u8>
    decreases s.len(),
{
    if s.len() == 0 {
        Seq::<u8>::empty()
    } else {
        evaluation_hashes(s.drop_last()) + encode_utf8(s.last().hash)
    }
}

/// The canonical byte encoding of a course: its key and naming fields,
/// the year if present, and its children's digests. The course digest
/// is thereby a Merkle-style summary of the whole course.
pub open spec fn course_hash_input(c: CourseView) -> Seq<u8> {
    encode_utf8(c.key) + encode_utf8(c.name) + encode_utf8(c.short_name) + aliases_bytes(c.aliases)
        + (match c.year {
        Option::Some(y) => i16_be_bytes(y),
        Option::None => Seq::<u8>::empty(),
    }) + question_hashes(c.questions) + evaluation_hashes(c.evaluations)
}

pub open spec fn course_rehashed(c: CourseView) -> CourseView {
    CourseView { hash: blake3_hex_of(course_hash_input(c)), ..c }
}

/// The validation outcome for a whole course: the first offending
/// question's error, if any.
pub open spec fn course_check_spec(qs: Seq<QuestionView>) -> Result<(), CheckError>
    decreases qs.len(),
{
    if qs.len() == 0 {
        Result::Ok(())
    } else if !(question_check_spec(qs[0]) is Ok) {
        question_check_spec(qs[0])
    } else {
        course_check_spec(qs.skip(1))
    }
}

pub proof fn lemma_course_check_ok(qs: Seq<QuestionView>)
    ensures
        course_check_spec(qs) is Ok <==> (forall|i: int|
            0 <= i < qs.len() ==> question_valid(#[trigger] qs[i])),
    decreases qs.len(),
{
    if qs.len() > 0 {
        lemma_course_check_ok(qs.skip(1));
        if question_check_spec(qs[0]) is Ok {
            assert forall|i: int| 0 <= i < qs.len() && course_check_spec(qs) is Ok
                implies question_valid(#[trigger] qs[i]) by {
                if i > 0 {
                    assert(qs.skip(1)[i - 1] == qs[i]);
                }
            }
            if forall|i: int| 0 <= i < qs.len() ==> question_valid(#[trigger] qs[i]) {
                assert forall|i: int| 0 <= i < qs.skip(1).len()
                    implies question_valid(#[trigger] qs.skip(1)[i]) by {
                    assert(qs.skip(1)[i] == qs[i + 1]);
                }
            }
        }
    }
}

impl CourseData {
    /// The canonical hash input bytes of this course.
    pub fn hashable_data(&self) -> (r: Vec<u8>)
        ensures
            r@ == course_hash_input(self@),
    {
        let mut bytes: Vec<u8> = Vec::new();
        push_str_bytes(&mut bytes, self.key.as_str());
        push_str_bytes(&mut bytes, self.name.as_str());
        push_str_bytes(&mut bytes, self.short_name.as_str());
        let ghost pre1 = bytes@;
        let mut i: usize = 0;
        while i < self.aliases.len()
            invariant
                i <= self.aliases.len(),
                bytes@ == pre1 + aliases_bytes(
                    self.aliases@.map_values(|a: String| a@).take(i as int),
                ),
            decreases self.aliases.len() - i,
        {
            push_str_bytes(&mut bytes, self.aliases[i].as_str());
            proof {
                let av = self.aliases@.map_values(|a: String| a@);
                assert(av.take(i + 1).drop_last() =~= av.take(i as int));
                assert(av.take(i + 1).last() == av[i as int]);
            }
            i = i + 1;
        }
        proof {
            let av = self.aliases@.map_values(|a: String| a@);
            assert(av.take(av.len() as int) =~= av);
        }
        match self.year {
            Option::Some(y) => push_i16_be_bytes(&mut bytes, y),
            Option::None => (),
        }
        let ghost pre2 = bytes@;
        let mut i: usize = 0;
        while i < self.questions.len()
            invariant
                i <= self.questions.len(),
                bytes@ == pre2 + question_hashes(questions_view(self.questions).take(i as int)),
            decreases self.questions.len() - i,
        {
            push_str_bytes(&mut bytes, self.questions[i].hash.as_str());
            proof {
                let qv = questions_view(self.questions);
                assert(qv.take(i + 1).drop_last() =~= qv.take(i as int));
                assert(qv.take(i + 1).last() == qv[i as int]);
            }
            i = i + 1;
        }
        proof {
            let qv = questions_view(self.questions);
            assert(qv.take(qv.len() as int) =~= qv);
        }
        let ghost pre3 = bytes@;
        let mut i: usize = 0;
        while i < self.evaluations.len()
            invariant
                i <= self.evaluations.len(),
                bytes@ == pre3 + evaluation_hashes(
                    evaluations_view(self.evaluations).take(i as int),
                ),
            decreases self.evaluations.len() - i,
        {
            push_str_bytes(&mut bytes, self.evaluations[i].hash.as_str());
            proof {
                let ev = evaluations_view(self.evaluations);
                assert(ev.take(i + 1).drop_last() =~= ev.take(i as int));
                assert(ev.take(i + 1).last() == ev[i as int]);
            }
            i = i + 1;
        }
        proof {
            let ev = evaluations_view(self.evaluations);
            assert(ev.take(ev.len() as int) =~= ev);
        }
        proof {
            assert(bytes@ =~= course_hash_input(self@));
        }
        bytes
    }

    /// The digest of the current field values and the children's
    /// stored digests.
    pub fn hash_data(&self) -> (r: String)
        ensures
            r@ == blake3_hex_of(course_hash_input(self@)),
    {
        blake3_hex(&self.hashable_data())
    }

    /// Recomputes the stored digest from the current field values and
    /// the children's stored digests.
    pub fn set_hash(&mut self)
        ensures
            final(self)@ == course_rehashed(old(self)@),
    {
        let data = self.hash_data();
        self.hash = data;
    }

    pub fn new(
        key: String,
        name: String,
        short_name: String,
        aliases: Vec<String>,
        year: Option<i16>,
        questions: Vec<QuestionData>,
        evaluations: Vec<CourseEvaluationData>,
    ) -> (r: Self)
        ensures
            r@ == course_rehashed(
                (CourseView {
                    key: key@,
                    name: name@,
                    short_name: short_name@,
                    aliases: aliases@.map_values(|a: String| a@),
                    year: year,
                    questions: questions_view(questions),
                    evaluations: evaluations_view(evaluations),
                    hash: Seq::<char>::empty(),
                }),
            ),
    {
        let mut data = CourseData {
            key,
            name,
            short_name,
            aliases,
            year,
            questions,
            evaluations,
            hash: String::new(),
        };
        data.set_hash();
        data
    }

    /// Validates every question, reporting the first violation.
    pub fn check(&self) -> (r: Result<(), CheckError>)
        ensures
            r == course_check_spec(self@.questions),
            r is Ok <==> (forall|i: int|
                0 <= i < self@.questions.len() ==> question_valid(#[trigger] self@.questions[i])),
    {
        let ghost qv = questions_view(self.questions);
        let mut i: usize = 0;
        proof {
            assert(qv.skip(0) =~= qv);
        }
        while i < self.questions.len()
            invariant
                i <= self.questions.len(),
                qv == questions_view(self.questions),
                course_check_spec(qv) == course_check_spec(qv.skip(i as int)),
                forall|j: int| 0 <= j < i ==> question_valid(#[trigger] qv[j]),
            decreases self.questions.len() - i,
        {
            proof {
                assert(qv.skip(i as int)[0] == qv[i as int]);
                assert(qv.skip(i as int).skip(1) =~= qv.skip(i + 1));
            }
            let r = self.questions[i].check();
            if let Err(e) = r {
                return Err(e);
            }
            i = i + 1;
        }
        proof {
            assert(qv.skip(qv.len() as int) =~= Seq::<QuestionView>::empty());
            lemma_course_check_ok(qv);
        }
        Ok(())
    }
}

} // verus!

verus! {

// ------------------------------------------------------------------
// Canonical text and image formatting
// ------------------------------------------------------------------

/// The index of the last `.` in a file name, if any.
pub open spec fn last_dot(s: Seq<char>) -> Option<int>
    decreases s.len(),
{
    if s.len() == 0 {
        Option::None
    } else if s.last() == '.' {
        Option::Some(s.len() - 1)
    } else {
        last_dot(s.drop_last())
    }
}

/// The file name up to its extension.
pub open spec fn stem_spec(s: Seq<char>) -> Seq<char> {
    match last_dot(s) {
        Option::Some(i) => s.take(i),
        Option::None => s,
    }
}

/// The file name's extension, after the last dot; empty when there is
/// no dot.
pub open spec fn ext_spec(s: Seq<char>) -> Seq<char> {
    match last_dot(s) {
        Option::Some(i) => s.skip(i + 1),
        Option::None => Seq::<char>::empty(),
    }
}

proof fn lemma_last_dot_at(s: Seq<char>, k: int)
    requires
        0 <= k < s.len(),
        s[k] == '.',
        forall|j: int| k < j < s.len() ==> s[j] != '.',
    ensures
        last_dot(s) == Option::Some(k),
    decreases s.len(),
{
    if k == s.len() - 1 {
    } else {
        lemma_last_dot_at(s.drop_last(), k);
    }
}

proof fn lemma_last_dot_none(s: Seq<char>)
    requires
        forall|j: int| 0 <= j < s.len() ==> s[j] != '.',
    ensures
        last_dot(s) == Option::<int>::None,
    decreases s.len(),
{
    if s.len() > 0 {
        lemma_last_dot_none(s.drop_last());
    }
}

/// Finds the last `.` of a file name.
fn find_last_dot(s: &str) -> (r: Option<usize>)
    ensures
        (match r {
            Option::Some(i) => last_dot(s@) == Option::Some(i as int) && i < s@.len() && s@[
                i as int
            ] == '.',
            Option::None => last_dot(s@) is None,
        }),
{
    let len = s.unicode_len();
    let mut i: usize = len;
    while i > 0
        invariant
            i <= len,
            len == s@.len(),
            forall|j: int| i <= j < len ==> s@[j] != '.',
        decreases i,
    {
        let c = s.get_char(i - 1);
        if c == '.' {
            proof {
                lemma_last_dot_at(s@, i - 1);
            }
            return Some(i - 1);
        }
        i = i - 1;
    }
    proof {
        lemma_last_dot_none(s@);
    }
    None
}

/// An option's view after formatting: its text trimmed.
pub open spec fn option_formatted(o: QuestionOptionView) -> QuestionOptionView {
    QuestionOptionView { text: trim_spec(o.text), ..o }
}

/// The canonical image file name of a question: the question's
/// identifier, keeping the authored extension.
pub open spec fn canonical_image_name(q: QuestionView) -> Option<Seq<char>> {
    match q.image_file_name {
        Option::None => Option::None,
        Option::Some(n) => if stem_spec(n) == crate::ids::id_str_of(q.id) {
            Option::Some(n)
        } else {
            Option::Some(crate::ids::id_str_of(q.id) + seq!['.'] + ext_spec(n))
        },
    }
}

/// The on-disk rename that canonicalizing the image name requires, if
/// any: the old file name and the new one.
pub open spec fn image_rename_spec(q: QuestionView) -> Option<(Seq<char>, Seq<char>)> {
    match q.image_file_name {
        Option::None => Option::None,
        Option::Some(n) => if stem_spec(n) == crate::ids::id_str_of(q.id) {
            Option::None
        } else {
            Option::Some((n, crate::ids::id_str_of(q.id) + seq!['.'] + ext_spec(n)))
        },
    }
}

/// A question's view after formatting: text trimmed, image name
/// canonical, options formatted.
pub open spec fn question_formatted(q: QuestionView) -> QuestionView {
    QuestionView {
        text: trim_spec(q.text),
        image_file_name: canonical_image_name(q),
        question_options: q.question_options.map_values(|o: QuestionOptionView| option_formatted(o)),
        ..q
    }
}

/// A question whose image name needs canonicalizing must carry an
/// extension; the original authoring rules guarantee it.
pub open spec fn image_renameable(q: QuestionView) -> bool {
    match q.image_file_name {
        Option::Some(n) => stem_spec(n) != crate::ids::id_str_of(q.id) ==> last_dot(n) is Some,
        Option::None => true,
    }
}

/// A pending on-disk rename of a question's image file.
pub struct ImageRename {
    pub from: String,
    pub to: String,
}

impl View for ImageRename {
    type V = (Seq<char>, Seq<char>);

    open spec fn view(&self) -> (Seq<char>, Seq<char>) {
        (self.from@, self.to@)
    }
}

impl QuestionData {
    /// Canonicalizes this question's derived fields: trims the text,
    /// renames the image reference after the question's identifier,
    /// and formats each option. Returns the file rename the image
    /// change requires, if any; the digest is not recomputed here.
    pub fn format(&mut self) -> (rename: Option<ImageRename>)
        requires
            image_renameable(old(self)@),
        ensures
            final(self)@ == question_formatted(old(self)@),
            (match rename {
                Option::Some(r) => image_rename_spec(old(self)@) == Option::Some(r@),
                Option::None => image_rename_spec(old(self)@) is None,
            }),
    {
        let ghost ov = old(self)@;
        self.text = trim_string(&self.text);
        let mut img: Option<String> = None;
        core::mem::swap(&mut self.image_file_name, &mut img);
        let rename: Option<ImageRename> = match img {
            Option::None => None,
            Option::Some(n) => {
                let id_s = crate::ids::id_string(self.id);
                let dot = find_last_dot(n.as_str());
                let stem: String = match dot {
                    Option::Some(i) => {
                        proof {
                            assert(n@.take(last_dot(n@)->0) == stem_spec(n@));
                        }
                        n.as_str().substring_char(0, i).to_owned()
                    },
                    Option::None => n.clone(),
                };
                if String::eq(&stem, &id_s) {
                    self.image_file_name = Some(n);
                    None
                } else {
                    match dot {
                        Option::Some(i) => {
                            let len = n.as_str().unicode_len();
                            let ext = n.as_str().substring_char(i + 1, len);
                            let mut nn = id_s;
                            proof {
                                reveal_strlit(".");
                            }
                            nn.append(".");
                            nn.append(ext);
                            proof {
                                assert(nn@ =~= crate::ids::id_str_of(self.id) + seq!['.'] + ext_spec(
                                    n@,
                                ));
                            }
                            let to = nn.clone();
                            self.image_file_name = Some(nn);
                            Some(ImageRename { from: n, to })
                        },
                        Option::None => unreached(),
                    }
                }
            },
        };
        let ghost mid = self@;
        let mut i: usize = 0;
        while i < self.question_options.len()
            invariant
                i <= self.question_options.len(),
                self.question_options.len() == mid.question_options.len(),
                (QuestionView {
                    question_options: mid.question_options,
                    ..self@
                }) == mid,
                forall|j: int|
                    0 <= j < i ==> options_view(self.question_options)[j] == option_formatted(
                        #[trigger] mid.question_options[j],
                    ),
                forall|j: int|
                    i <= j < self.question_options.len() ==> options_view(self.question_options)[j]
                        == mid.question_options[j],
            decreases self.question_options.len() - i,
        {
            self.question_options[i].format();
            i = i + 1;
        }
        proof {
            assert(options_view(self.question_options) =~= mid.question_options.map_values(
                |o: QuestionOptionView| option_formatted(o),
            ));
            assert(self@ == question_formatted(ov));
        }
        rename
    }

    /// A question's view after its course key and its options' back
    /// references are attached.
    pub fn set_data(&mut self, course_key: String)
        ensures
            final(self)@ == question_with_data(old(self)@, course_key@),
    {
        let ghost ckv = course_key@;
        let qid = self.id;
        self.course_key = Some(course_key);
        let ghost mid = self@;
        let mut i: usize = 0;
        while i < self.question_options.len()
            invariant
                i <= self.question_options.len(),
                self.question_options.len() == mid.question_options.len(),
                (QuestionView {
                    question_options: mid.question_options,
                    ..self@
                }) == mid,
                qid == mid.id,
                forall|j: int|
                    0 <= j < i ==> options_view(self.question_options)[j]
                        == (QuestionOptionView {
                        question_id: Option::Some(mid.id),
                        ..#[trigger] mid.question_options[j]
                    }),
                forall|j: int|
                    i <= j < self.question_options.len() ==> options_view(self.question_options)[j]
                        == mid.question_options[j],
            decreases self.question_options.len() - i,
        {
            self.question_options[i].set_question_id(qid);
            i = i + 1;
        }
        proof {
            assert(options_view(self.question_options) =~= mid.question_options.map_values(
                |o: QuestionOptionView|
                    QuestionOptionView { question_id: Option::Some(mid.id), ..o },
            ));
            assert(self@ == question_with_data(old(self)@, ckv));
        }
    }
}

/// A question with its course key attached and its identifier pushed
/// down to its options.
pub open spec fn question_with_data(q: QuestionView, course_key: Seq<char>) -> QuestionView {
    QuestionView {
        course_key: Option::Some(course_key),
        question_options: q.question_options.map_values(
            |o: QuestionOptionView| QuestionOptionView { question_id: Option::Some(q.id), ..o },
        ),
        ..q
    }
}


proof fn lemma_last_dot_bounds(s: Seq<char>)
    ensures
        (match last_dot(s) {
            Option::Some(i) => 0 <= i < s.len() && s[i] == '.',
            Option::None => true,
        }),
    decreases s.len(),
{
    if s.len() > 0 && s.last() != '.' {
        lemma_last_dot_bounds(s.drop_last());
    }
}

proof fn lemma_last_dot_no_dots_after(s: Seq<char>)
    ensures
        (match last_dot(s) {
            Option::Some(i) => forall|j: int| i < j < s.len() ==> s[j] != '.',
            Option::None => forall|j: int| 0 <= j < s.len() ==> s[j] != '.',
        }),
    decreases s.len(),
{
    lemma_last_dot_bounds(s);
    if s.len() > 0 && s.last() != '.' {
        lemma_last_dot_no_dots_after(s.drop_last());
        lemma_last_dot_bounds(s.drop_last());
        match last_dot(s.drop_last()) {
            Option::Some(i) => {
                assert forall|j: int| i < j < s.len() implies s[j] != '.' by {
                    if j < s.len() - 1 {
                        assert(s.drop_last()[j] == s[j]);
                        assert(s.drop_last()[j] != '.');
                    }
                }
            },
            Option::None => {
                assert forall|j: int| 0 <= j < s.len() implies s[j] != '.' by {
                    if j < s.len() - 1 {
                        assert(s.drop_last()[j] == s[j]);
                        assert(s.drop_last()[j] != '.');
                    }
                }
            },
        }
    }
}

/// The canonical image name's stem is the question's identifier:
/// renaming an image is stable.
proof fn lemma_canonical_image_stem(id: u128, n: Seq<char>)
    ensures
        stem_spec(crate::ids::id_str_of(id) + seq!['.'] + ext_spec(n)) == crate::ids::id_str_of(
            id,
        ),
{
    let ids = crate::ids::id_str_of(id);
    let ext = ext_spec(n);
    let new = ids + seq!['.'] + ext;
    let l = ids.len() as int;
    assert((ids + seq!['.']).len() == l + 1);
    assert(new.len() == l + 1 + ext.len());
    assert(new[l] == (ids + seq!['.'])[l]);
    assert(new[l] == '.');
    lemma_last_dot_no_dots_after(n);
    lemma_last_dot_bounds(n);
    assert forall|j: int| l < j < new.len() implies new[j] != '.' by {
        assert(new[j] == ext[j - (l + 1)]);
        match last_dot(n) {
            Option::Some(i) => {
                assert(ext =~= n.skip(i + 1));
                assert(ext.len() == n.len() - (i + 1));
                assert(ext[j - (l + 1)] == n[i + 1 + (j - (l + 1))]);
                assert(n[i + 1 + (j - (l + 1))] != '.');
            },
            Option::None => {
                assert(ext.len() == 0);
            },
        }
    }
    lemma_last_dot_at(new, l);
    assert(new.take(l) =~= ids);
}

/// Formatting a question is idempotent: trimming trimmed text and
/// renaming a canonically named image change nothing.
pub proof fn lemma_question_formatted_idempotent(q: QuestionView)
    ensures
        question_formatted(question_formatted(q)) == question_formatted(q),
{
    let q1 = question_formatted(q);
    crate::strings::lemma_trim_idempotent(q.text);
    match q.image_file_name {
        Option::None => {},
        Option::Some(n) => {
            if stem_spec(n) == crate::ids::id_str_of(q.id) {
            } else {
                lemma_canonical_image_stem(q.id, n);
            }
        },
    }
    assert(canonical_image_name(q1) == canonical_image_name(q));
    let o1 = q.question_options.map_values(|o: QuestionOptionView| option_formatted(o));
    let o2 = o1.map_values(|o: QuestionOptionView| option_formatted(o));
    assert forall|i: int| 0 <= i < o2.len() implies #[trigger] o2[i] == o1[i] by {
        crate::strings::lemma_trim_idempotent(q.question_options[i].text);
        assert(o1[i] == option_formatted(q.question_options[i]));
        assert(o2[i] == option_formatted(o1[i]));
    }
    assert(o2 =~= o1);
}

} // verus!
