//! Canonical ordering and deduplication of a course's nested data, and
//! the canonicalization pipeline: format, deduplicate, sort, attach
//! parent keys, recompute digests bottom-up.

use vstd::prelude::*;
use crate::strings::{lex_le, lemma_lex_le_connex, lemma_lex_le_antisym, lemma_lex_le_trans};
use crate::data::{
    CourseData, CourseView, QuestionData, QuestionView, QuestionOptionData, QuestionOptionView,
    CourseEvaluationView, CourseEvaluationData, option_content, question_eq_data, date_opt_le,
    date_opt_le_exec, options_view, questions_view, evaluations_view, question_formatted,
    question_with_data, image_renameable, image_rename_spec, ImageRename, option_rehashed,
    question_rehashed, evaluation_rehashed, course_rehashed,
};
use crate::strings::string_le;

verus! {

// ------------------------------------------------------------------
// Canonical orders
// ------------------------------------------------------------------

/// Order on options: the correct option first, the rest by text
/// ascending.
pub open spec fn option_le(a: QuestionOptionView, b: QuestionOptionView) -> bool {
    a.correct || (!b.correct && lex_le(a.text, b.text))
}

/// Order on questions: by evaluation, asked date, text, identifier,
/// ties broken in that field order.
pub open spec fn question_le(a: QuestionView, b: QuestionView) -> bool {
    if a.evaluation != b.evaluation {
        lex_le(a.evaluation, b.evaluation)
    } else if a.asked_at != b.asked_at {
        date_opt_le(a.asked_at, b.asked_at)
    } else if a.text != b.text {
        lex_le(a.text, b.text)
    } else {
        a.id <= b.id
    }
}

pub open spec fn options_sorted(s: Seq<QuestionOptionView>) -> bool {
    forall|i: int, j: int| 0 <= i < j < s.len() ==> option_le(#[trigger] s[i], #[trigger] s[j])
}

pub open spec fn questions_sorted(s: Seq<QuestionView>) -> bool {
    forall|i: int, j: int| 0 <= i < j < s.len() ==> question_le(#[trigger] s[i], #[trigger] s[j])
}

pub proof fn lemma_option_le_connex(a: QuestionOptionView, b: QuestionOptionView)
    ensures
        option_le(a, b) || option_le(b, a),
{
    lemma_lex_le_connex(a.text, b.text);
}

pub proof fn lemma_option_le_trans(a: QuestionOptionView, b: QuestionOptionView, c: QuestionOptionView)
    requires
        option_le(a, b),
        option_le(b, c),
    ensures
        option_le(a, c),
{
    if !a.correct && !b.correct && !c.correct {
        lemma_lex_le_trans(a.text, b.text, c.text);
    }
}

pub proof fn lemma_question_le_connex(a: QuestionView, b: QuestionView)
    ensures
        question_le(a, b) || question_le(b, a),
{
    lemma_lex_le_connex(a.evaluation, b.evaluation);
    lemma_lex_le_connex(a.text, b.text);
}

pub proof fn lemma_question_le_trans(a: QuestionView, b: QuestionView, c: QuestionView)
    requires
        question_le(a, b),
        question_le(b, c),
    ensures
        question_le(a, c),
{
    if a.evaluation == b.evaluation {
        if b.evaluation == c.evaluation {
            if a.asked_at == b.asked_at {
                if b.asked_at == c.asked_at {
                    if a.text == b.text {
                        if b.text == c.text {
                        } else {
                        }
                    } else {
                        if b.text == c.text {
                        } else {
                            lemma_lex_le_trans(a.text, b.text, c.text);
                            if a.text == c.text {
                                lemma_lex_le_antisym(b.text, c.text);
                            }
                        }
                    }
                } else {
                }
            } else {
                if b.asked_at == c.asked_at {
                } else {
                    if a.asked_at == c.asked_at {
                    }
                }
            }
        } else {
        }
    } else {
        if b.evaluation == c.evaluation {
        } else {
            lemma_lex_le_trans(a.evaluation, b.evaluation, c.evaluation);
            if a.evaluation == c.evaluation {
                lemma_lex_le_antisym(b.evaluation, c.evaluation);
            }
        }
    }
}

// ------------------------------------------------------------------
// Sorting, as a deterministic specification
// ------------------------------------------------------------------

/// Stable insertion of an option into a sorted prefix: it goes after
/// every element that is `option_le` it.
pub open spec fn insert_sorted_option(s: Seq<QuestionOptionView>, x: QuestionOptionView) -> Seq<
    QuestionOptionView,
>
    decreases s.len(),
{
    if s.len() == 0 {
        seq![x]
    } else if option_le(s.first(), x) {
        seq![s.first()] + insert_sorted_option(s.drop_first(), x)
    } else {
        seq![x] + s
    }
}

/// Stable insertion sort of a question's options.
pub open spec fn sort_options_spec(s: Seq<QuestionOptionView>) -> Seq<QuestionOptionView>
    decreases s.len(),
{
    if s.len() == 0 {
        Seq::<QuestionOptionView>::empty()
    } else {
        insert_sorted_option(sort_options_spec(s.drop_last()), s.last())
    }
}

pub open spec fn insert_sorted_question(s: Seq<QuestionView>, x: QuestionView) -> Seq<QuestionView>
    decreases s.len(),
{
    if s.len() == 0 {
        seq![x]
    } else if question_le(s.first(), x) {
        seq![s.first()] + insert_sorted_question(s.drop_first(), x)
    } else {
        seq![x] + s
    }
}

/// Stable insertion sort of a course's questions.
pub open spec fn sort_questions_spec(s: Seq<QuestionView>) -> Seq<QuestionView>
    decreases s.len(),
{
    if s.len() == 0 {
        Seq::<QuestionView>::empty()
    } else {
        insert_sorted_question(sort_questions_spec(s.drop_last()), s.last())
    }
}

proof fn lemma_insert_sorted_option_at(s: Seq<QuestionOptionView>, x: QuestionOptionView, pos: int)
    requires
        0 <= pos <= s.len(),
        forall|j: int| 0 <= j < pos ==> option_le(#[trigger] s[j], x),
        pos < s.len() ==> !option_le(s[pos], x),
    ensures
        insert_sorted_option(s, x) == s.insert(pos, x),
    decreases s.len(),
{
    if s.len() == 0 {
        assert(s.insert(0, x) =~= seq![x]);
    } else if pos == 0 {
        assert(!option_le(s[0], x));
        assert(s.insert(0, x) =~= seq![x] + s);
    } else {
        assert(option_le(s.first(), x));
        lemma_insert_sorted_option_at(s.drop_first(), x, pos - 1);
        assert(s.insert(pos, x) =~= seq![s.first()] + s.drop_first().insert(pos - 1, x));
    }
}

proof fn lemma_insert_sorted_question_at(s: Seq<QuestionView>, x: QuestionView, pos: int)
    requires
        0 <= pos <= s.len(),
        forall|j: int| 0 <= j < pos ==> question_le(#[trigger] s[j], x),
        pos < s.len() ==> !question_le(s[pos], x),
    ensures
        insert_sorted_question(s, x) == s.insert(pos, x),
    decreases s.len(),
{
    if s.len() == 0 {
        assert(s.insert(0, x) =~= seq![x]);
    } else if pos == 0 {
        assert(!question_le(s[0], x));
        assert(s.insert(0, x) =~= seq![x] + s);
    } else {
        assert(question_le(s.first(), x));
        lemma_insert_sorted_question_at(s.drop_first(), x, pos - 1);
        assert(s.insert(pos, x) =~= seq![s.first()] + s.drop_first().insert(pos - 1, x));
    }
}

// ------------------------------------------------------------------
// Deduplication, as a deterministic specification
// ------------------------------------------------------------------

/// Whether an option with the given content is already present.
pub open spec fn contains_content(
    s: Seq<QuestionOptionView>,
    k: (Seq<char>, bool, Option<Seq<char>>),
) -> bool {
    exists|i: int| 0 <= i < s.len() && option_content(#[trigger] s[i]) == k
}

/// Keep-first deduplication of options by semantic content.
pub open spec fn dedup_options_spec(s: Seq<QuestionOptionView>) -> Seq<QuestionOptionView>
    decreases s.len(),
{
    if s.len() == 0 {
        Seq::<QuestionOptionView>::empty()
    } else {
        let prev = dedup_options_spec(s.drop_last());
        if contains_content(prev, option_content(s.last())) {
            prev
        } else {
            prev.push(s.last())
        }
    }
}

/// Whether a duplicate of question `q` is already present.
pub open spec fn contains_eq_question(s: Seq<QuestionView>, q: QuestionView) -> bool {
    exists|i: int| 0 <= i < s.len() && question_eq_data(#[trigger] s[i], q)
}

/// Keep-first deduplication of questions by the duplicate relation.
pub open spec fn dedup_questions_spec(s: Seq<QuestionView>) -> Seq<QuestionView>
    decreases s.len(),
{
    if s.len() == 0 {
        Seq::<QuestionView>::empty()
    } else {
        let prev = dedup_questions_spec(s.drop_last());
        if contains_eq_question(prev, s.last()) {
            prev
        } else {
            prev.push(s.last())
        }
    }
}


// ------------------------------------------------------------------
// Views of vectors under element moves
// ------------------------------------------------------------------

pub(crate) proof fn lemma_oview_remove0(prev: Seq<QuestionOptionData>, now: Seq<QuestionOptionData>)
    requires
        prev.len() > 0,
        now == prev.remove(0),
    ensures
        now.map_values(|o: QuestionOptionData| o@) =~= prev.map_values(
            |o: QuestionOptionData| o@,
        ).skip(1),
{
    let nmv = now.map_values(|o: QuestionOptionData| o@);
    let pmv = prev.map_values(|o: QuestionOptionData| o@);
    assert forall|i: int| 0 <= i < now.len() implies #[trigger] nmv[i] == pmv.skip(1)[i] by {
        assert(nmv[i] == now[i]@);
        assert(pmv[i + 1] == prev[i + 1]@);
    }
    assert(nmv =~= pmv.skip(1));
}

pub(crate) proof fn lemma_oview_insert(
    prev: Seq<QuestionOptionData>,
    now: Seq<QuestionOptionData>,
    pos: int,
    x: QuestionOptionData,
)
    requires
        0 <= pos <= prev.len(),
        now == prev.insert(pos, x),
    ensures
        now.map_values(|o: QuestionOptionData| o@) =~= prev.map_values(
            |o: QuestionOptionData| o@,
        ).insert(pos, x@),
{
    let nmv = now.map_values(|o: QuestionOptionData| o@);
    let pmv = prev.map_values(|o: QuestionOptionData| o@);
    prev.insert_ensures(pos, x);
    pmv.insert_ensures(pos, x@);
    assert forall|i: int| 0 <= i < now.len() implies #[trigger] nmv[i] == pmv.insert(pos, x@)[i] by {
        assert(nmv[i] == now[i]@);
        if i < pos {
            assert(pmv[i] == prev[i]@);
        } else if i > pos {
            assert(pmv[i - 1] == prev[i - 1]@);
        }
    }
    assert(nmv =~= pmv.insert(pos, x@));
}

pub(crate) proof fn lemma_oview_push(prev: Seq<QuestionOptionData>, now: Seq<QuestionOptionData>, x: QuestionOptionData)
    requires
        now == prev.push(x),
    ensures
        now.map_values(|o: QuestionOptionData| o@) =~= prev.map_values(
            |o: QuestionOptionData| o@,
        ).push(x@),
{
    let nmv = now.map_values(|o: QuestionOptionData| o@);
    let pmv = prev.map_values(|o: QuestionOptionData| o@);
    assert forall|i: int| 0 <= i < now.len() implies #[trigger] nmv[i] == pmv.push(x@)[i] by {
        assert(nmv[i] == now[i]@);
        if i < prev.len() {
            assert(pmv[i] == prev[i]@);
        }
    }
    assert(nmv =~= pmv.push(x@));
}

pub(crate) proof fn lemma_qview_remove0(prev: Seq<QuestionData>, now: Seq<QuestionData>)
    requires
        prev.len() > 0,
        now == prev.remove(0),
    ensures
        now.map_values(|q: QuestionData| q@) =~= prev.map_values(|q: QuestionData| q@).skip(1),
{
    let nmv = now.map_values(|q: QuestionData| q@);
    let pmv = prev.map_values(|q: QuestionData| q@);
    assert forall|i: int| 0 <= i < now.len() implies #[trigger] nmv[i] == pmv.skip(1)[i] by {
        assert(nmv[i] == now[i]@);
        assert(pmv[i + 1] == prev[i + 1]@);
    }
    assert(nmv =~= pmv.skip(1));
}

pub(crate) proof fn lemma_qview_insert(prev: Seq<QuestionData>, now: Seq<QuestionData>, pos: int, x: QuestionData)
    requires
        0 <= pos <= prev.len(),
        now == prev.insert(pos, x),
    ensures
        now.map_values(|q: QuestionData| q@) =~= prev.map_values(|q: QuestionData| q@).insert(
            pos,
            x@,
        ),
{
    let nmv = now.map_values(|q: QuestionData| q@);
    let pmv = prev.map_values(|q: QuestionData| q@);
    prev.insert_ensures(pos, x);
    pmv.insert_ensures(pos, x@);
    assert forall|i: int| 0 <= i < now.len() implies #[trigger] nmv[i] == pmv.insert(pos, x@)[i] by {
        assert(nmv[i] == now[i]@);
        if i < pos {
            assert(pmv[i] == prev[i]@);
        } else if i > pos {
            assert(pmv[i - 1] == prev[i - 1]@);
        }
    }
    assert(nmv =~= pmv.insert(pos, x@));
}

pub(crate) proof fn lemma_qview_push(prev: Seq<QuestionData>, now: Seq<QuestionData>, x: QuestionData)
    requires
        now == prev.push(x),
    ensures
        now.map_values(|q: QuestionData| q@) =~= prev.map_values(|q: QuestionData| q@).push(x@),
{
    let nmv = now.map_values(|q: QuestionData| q@);
    let pmv = prev.map_values(|q: QuestionData| q@);
    assert forall|i: int| 0 <= i < now.len() implies #[trigger] nmv[i] == pmv.push(x@)[i] by {
        assert(nmv[i] == now[i]@);
        if i < prev.len() {
            assert(pmv[i] == prev[i]@);
        }
    }
    assert(nmv =~= pmv.push(x@));
}

pub(crate) proof fn lemma_qview_update(prev: Seq<QuestionData>, now: Seq<QuestionData>, i: int)
    requires
        0 <= i < prev.len(),
        now.len() == prev.len(),
        now[i]@ == now[i]@,
        forall|j: int| 0 <= j < prev.len() && j != i ==> now[j] == prev[j],
    ensures
        forall|j: int| #![trigger now[j]]
            0 <= j < prev.len() && j != i ==> now.map_values(|q: QuestionData| q@)[j]
                == prev.map_values(|q: QuestionData| q@)[j],
{
    let nmv = now.map_values(|q: QuestionData| q@);
    let pmv = prev.map_values(|q: QuestionData| q@);
    assert forall|j: int| 0 <= j < prev.len() && j != i implies #[trigger] nmv[j] == pmv[j] by {
        assert(nmv[j] == now[j]@);
        assert(pmv[j] == prev[j]@);
    }
}

// ------------------------------------------------------------------
// Executable sorting and deduplication
// ------------------------------------------------------------------

fn option_le_exec(a: &QuestionOptionData, b: &QuestionOptionData) -> (r: bool)
    ensures
        r == option_le(a@, b@),
{
    if a.correct {
        true
    } else if b.correct {
        false
    } else {
        string_le(&a.text, &b.text)
    }
}

fn question_le_exec(a: &QuestionData, b: &QuestionData) -> (r: bool)
    ensures
        r == question_le(a@, b@),
{
    if !(a.evaluation == b.evaluation) {
        string_le(&a.evaluation, &b.evaluation)
    } else if !date_opt_eq(&a.asked_at, &b.asked_at) {
        date_opt_le_exec(&a.asked_at, &b.asked_at)
    } else if !(a.text == b.text) {
        string_le(&a.text, &b.text)
    } else {
        a.id <= b.id
    }
}

fn date_opt_eq(a: &Option<crate::data::DateData>, b: &Option<crate::data::DateData>) -> (r: bool)
    ensures
        r == (*a == *b),
{
    match (a, b) {
        (Option::None, Option::None) => true,
        (Option::Some(x), Option::Some(y)) => {
            x.year == y.year && x.month == y.month && x.day == y.day
        },
        _ => false,
    }
}

impl QuestionData {
    /// Sorts this question's options into canonical order: the
    /// correct option first, the rest by text ascending. Stable.
    pub fn sort_options(&mut self)
        ensures
            final(self)@ == (QuestionView {
                question_options: sort_options_spec(old(self)@.question_options),
                ..old(self)@
            }),
    {
        let ghost orig = options_view(self.question_options);
        let mut src: Vec<QuestionOptionData> = Vec::new();
        core::mem::swap(&mut self.question_options, &mut src);
        let n = src.len();
        let mut k: usize = 0;
        proof {
            assert(orig.len() == n as int);
            assert(orig.take(0) =~= Seq::<QuestionOptionView>::empty());
            assert(orig.skip(0) =~= orig);
            assert(options_view(self.question_options) =~= Seq::<QuestionOptionView>::empty());
            assert(options_view(src) =~= orig);
        }
        while src.len() > 0
            invariant
                k + src.len() == orig.len(),
                orig.len() <= usize::MAX,
                options_view(src) == orig.skip(k as int),
                options_view(self.question_options) == sort_options_spec(orig.take(k as int)),
                (QuestionView {
                    question_options: orig,
                    ..self@
                }) == old(self)@,
            decreases src.len(),
        {
            let ghost prevsrc = src@;
            let x = src.remove(0);
            proof {
                lemma_oview_remove0(prevsrc, src@);
                assert(options_view(src) =~= orig.skip(k + 1));
                assert(prevsrc.map_values(|o: QuestionOptionData| o@)[0] == prevsrc[0]@);
                assert(x@ == orig.skip(k as int)[0]);
                assert(x@ == orig[k as int]);
            }
            let mut pos: usize = 0;
            while pos < self.question_options.len() && option_le_exec(
                &self.question_options[pos],
                &x,
            )
                invariant
                    pos <= self.question_options.len(),
                    forall|j: int|
                        0 <= j < pos ==> option_le(
                            #[trigger] options_view(self.question_options)[j],
                            x@,
                        ),
                decreases self.question_options.len() - pos,
            {
                pos = pos + 1;
            }
            proof {
                lemma_insert_sorted_option_at(options_view(self.question_options), x@, pos as int);
                assert(orig.take(k + 1).drop_last() =~= orig.take(k as int));
                assert(orig.take(k + 1).last() == orig[k as int]);
            }
            let ghost prevout = self.question_options@;
            self.question_options.insert(pos, x);
            proof {
                lemma_oview_insert(prevout, self.question_options@, pos as int, x);
                assert(options_view(self.question_options) =~= sort_options_spec(
                    orig.take(k as int),
                ).insert(pos as int, x@));
                assert(options_view(self.question_options) == sort_options_spec(orig.take(k + 1)));
            }
            k = k + 1;
        }
        proof {
            assert(orig.take(orig.len() as int) =~= orig);
        }
    }

    /// Removes duplicate options, keeping the first occurrence of
    /// each content.
    pub fn deduplicate_options(&mut self)
        ensures
            final(self)@ == (QuestionView {
                question_options: dedup_options_spec(old(self)@.question_options),
                ..old(self)@
            }),
    {
        let ghost orig = options_view(self.question_options);
        let mut src: Vec<QuestionOptionData> = Vec::new();
        core::mem::swap(&mut self.question_options, &mut src);
        let n = src.len();
        let mut k: usize = 0;
        proof {
            assert(orig.len() == n as int);
            assert(orig.take(0) =~= Seq::<QuestionOptionView>::empty());
            assert(orig.skip(0) =~= orig);
            assert(options_view(self.question_options) =~= Seq::<QuestionOptionView>::empty());
            assert(options_view(src) =~= orig);
        }
        while src.len() > 0
            invariant
                k + src.len() == orig.len(),
                orig.len() <= usize::MAX,
                options_view(src) == orig.skip(k as int),
                options_view(self.question_options) == dedup_options_spec(orig.take(k as int)),
                (QuestionView {
                    question_options: orig,
                    ..self@
                }) == old(self)@,
            decreases src.len(),
        {
            let ghost prevsrc = src@;
            let x = src.remove(0);
            proof {
                lemma_oview_remove0(prevsrc, src@);
                assert(options_view(src) =~= orig.skip(k + 1));
                assert(prevsrc.map_values(|o: QuestionOptionData| o@)[0] == prevsrc[0]@);
                assert(x@ == orig.skip(k as int)[0]);
                assert(x@ == orig[k as int]);
                assert(orig.take(k + 1).drop_last() =~= orig.take(k as int));
                assert(orig.take(k + 1).last() == orig[k as int]);
            }
            let mut found = false;
            let mut j: usize = 0;
            while j < self.question_options.len()
                invariant
                    j <= self.question_options.len(),
                    found == (exists|l: int|
                        0 <= l < j && option_content(
                            #[trigger] options_view(self.question_options)[l],
                        ) == option_content(x@)),
                decreases self.question_options.len() - j,
            {
                proof {
                    assert(options_view(self.question_options)[j as int]
                        == self.question_options@[j as int]@);
                }
                if self.question_options[j].eq_data(&x) {
                    found = true;
                }
                j = j + 1;
            }
            if !found {
                let ghost prevout = self.question_options@;
                self.question_options.push(x);
                proof {
                    lemma_oview_push(prevout, self.question_options@, x);
                    assert(options_view(self.question_options) == dedup_options_spec(
                        orig.take(k + 1),
                    ));
                }
            } else {
                proof {
                    assert(options_view(self.question_options) == dedup_options_spec(
                        orig.take(k + 1),
                    ));
                }
            }
            k = k + 1;
        }
        proof {
            assert(orig.take(orig.len() as int) =~= orig);
        }
    }
}

impl CourseData {
    /// Sorts the questions into canonical order and, within each
    /// question, its options. Stable.
    pub fn sort(&mut self)
        ensures
            final(self)@ == (CourseView {
                questions: sort_questions_spec(old(self)@.questions).map_values(
                    |q: QuestionView|
                        QuestionView {
                            question_options: sort_options_spec(q.question_options),
                            ..q
                        },
                ),
                ..old(self)@
            }),
    {
        let ghost orig = questions_view(self.questions);
        let mut src: Vec<QuestionData> = Vec::new();
        core::mem::swap(&mut self.questions, &mut src);
        let n = src.len();
        let mut k: usize = 0;
        proof {
            assert(orig.len() == n as int);
            assert(orig.take(0) =~= Seq::<QuestionView>::empty());
            assert(orig.skip(0) =~= orig);
            assert(questions_view(self.questions) =~= Seq::<QuestionView>::empty());
            assert(questions_view(src) =~= orig);
        }
        while src.len() > 0
            invariant
                k + src.len() == orig.len(),
                orig.len() <= usize::MAX,
                questions_view(src) == orig.skip(k as int),
                questions_view(self.questions) == sort_questions_spec(orig.take(k as int)),
                (CourseView {
                    questions: orig,
                    ..self@
                }) == old(self)@,
            decreases src.len(),
        {
            let ghost prevsrc = src@;
            let x = src.remove(0);
            proof {
                lemma_qview_remove0(prevsrc, src@);
                assert(questions_view(src) =~= orig.skip(k + 1));
                assert(prevsrc.map_values(|q: QuestionData| q@)[0] == prevsrc[0]@);
                assert(x@ == orig.skip(k as int)[0]);
                assert(x@ == orig[k as int]);
            }
            let mut pos: usize = 0;
            while pos < self.questions.len() && question_le_exec(&self.questions[pos], &x)
                invariant
                    pos <= self.questions.len(),
                    forall|j: int|
                        0 <= j < pos ==> question_le(
                            #[trigger] questions_view(self.questions)[j],
                            x@,
                        ),
                decreases self.questions.len() - pos,
            {
                pos = pos + 1;
            }
            proof {
                lemma_insert_sorted_question_at(questions_view(self.questions), x@, pos as int);
                assert(orig.take(k + 1).drop_last() =~= orig.take(k as int));
                assert(orig.take(k + 1).last() == orig[k as int]);
            }
            let ghost prevout = self.questions@;
            self.questions.insert(pos, x);
            proof {
                lemma_qview_insert(prevout, self.questions@, pos as int, x);
                assert(questions_view(self.questions) =~= sort_questions_spec(
                    orig.take(k as int),
                ).insert(pos as int, x@));
                assert(questions_view(self.questions) == sort_questions_spec(orig.take(k + 1)));
            }
            k = k + 1;
        }
        proof {
            assert(orig.take(orig.len() as int) =~= orig);
        }
        let ghost sorted = questions_view(self.questions);
        let mut i: usize = 0;
        while i < self.questions.len()
            invariant
                i <= self.questions.len(),
                self.questions.len() == sorted.len(),
                sorted == sort_questions_spec(orig),
                (CourseView {
                    questions: orig,
                    ..self@
                }) == old(self)@,
                forall|j: int|
                    0 <= j < i ==> questions_view(self.questions)[j]
                        == (QuestionView {
                        question_options: sort_options_spec(
                            (#[trigger] sorted[j]).question_options,
                        ),
                        ..sorted[j]
                    }),
                forall|j: int|
                    i <= j < self.questions.len() ==> questions_view(self.questions)[j]
                        == sorted[j],
            decreases self.questions.len() - i,
        {
            let ghost prevq = self.questions@;
            self.questions[i].sort_options();
            proof {
                lemma_qview_update(prevq, self.questions@, i as int);
                assert(questions_view(self.questions)[i as int] == self.questions@[i as int]@);
                assert(prevq.map_values(|q: QuestionData| q@)[i as int] == prevq[i as int]@);
            }
            i = i + 1;
        }
        proof {
            assert(questions_view(self.questions) =~= sort_questions_spec(orig).map_values(
                |q: QuestionView|
                    QuestionView { question_options: sort_options_spec(q.question_options), ..q },
            ));
        }
    }

    /// Removes duplicate questions, keeping the first occurrence of
    /// each, then removes duplicate options within each surviving
    /// question.
    pub fn deduplicate(&mut self)
        ensures
            final(self)@ == (CourseView {
                questions: dedup_questions_spec(old(self)@.questions).map_values(
                    |q: QuestionView|
                        QuestionView {
                            question_options: dedup_options_spec(q.question_options),
                            ..q
                        },
                ),
                ..old(self)@
            }),
    {
        let ghost orig = questions_view(self.questions);
        let mut src: Vec<QuestionData> = Vec::new();
        core::mem::swap(&mut self.questions, &mut src);
        let n = src.len();
        let mut k: usize = 0;
        proof {
            assert(orig.len() == n as int);
            assert(orig.take(0) =~= Seq::<QuestionView>::empty());
            assert(orig.skip(0) =~= orig);
            assert(questions_view(self.questions) =~= Seq::<QuestionView>::empty());
            assert(questions_view(src) =~= orig);
        }
        while src.len() > 0
            invariant
                k + src.len() == orig.len(),
                orig.len() <= usize::MAX,
                questions_view(src) == orig.skip(k as int),
                questions_view(self.questions) == dedup_questions_spec(orig.take(k as int)),
                (CourseView {
                    questions: orig,
                    ..self@
                }) == old(self)@,
            decreases src.len(),
        {
            let ghost prevsrc = src@;
            let x = src.remove(0);
            proof {
                lemma_qview_remove0(prevsrc, src@);
                assert(questions_view(src) =~= orig.skip(k + 1));
                assert(prevsrc.map_values(|q: QuestionData| q@)[0] == prevsrc[0]@);
                assert(x@ == orig.skip(k as int)[0]);
                assert(x@ == orig[k as int]);
                assert(orig.take(k + 1).drop_last() =~= orig.take(k as int));
                assert(orig.take(k + 1).last() == orig[k as int]);
            }
            let mut found = false;
            let mut j: usize = 0;
            while j < self.questions.len()
                invariant
                    j <= self.questions.len(),
                    found == (exists|l: int|
                        0 <= l < j && question_eq_data(
                            #[trigger] questions_view(self.questions)[l],
                            x@,
                        )),
                decreases self.questions.len() - j,
            {
                proof {
                    assert(questions_view(self.questions)[j as int]
                        == self.questions@[j as int]@);
                }
                if self.questions[j].eq_data(&x) {
                    found = true;
                }
                j = j + 1;
            }
            if !found {
                let ghost prevout = self.questions@;
                self.questions.push(x);
                proof {
                    lemma_qview_push(prevout, self.questions@, x);
                    assert(questions_view(self.questions) == dedup_questions_spec(
                        orig.take(k + 1),
                    ));
                }
            } else {
                proof {
                    assert(questions_view(self.questions) == dedup_questions_spec(
                        orig.take(k + 1),
                    ));
                }
            }
            k = k + 1;
        }
        proof {
            assert(orig.take(orig.len() as int) =~= orig);
        }
        let ghost deduped = questions_view(self.questions);
        let mut i: usize = 0;
        while i < self.questions.len()
            invariant
                i <= self.questions.len(),
                self.questions.len() == deduped.len(),
                deduped == dedup_questions_spec(orig),
                (CourseView {
                    questions: orig,
                    ..self@
                }) == old(self)@,
                forall|j: int|
                    0 <= j < i ==> questions_view(self.questions)[j]
                        == (QuestionView {
                        question_options: dedup_options_spec(
                            (#[trigger] deduped[j]).question_options,
                        ),
                        ..deduped[j]
                    }),
                forall|j: int|
                    i <= j < self.questions.len() ==> questions_view(self.questions)[j]
                        == deduped[j],
            decreases self.questions.len() - i,
        {
            let ghost prevq = self.questions@;
            self.questions[i].deduplicate_options();
            proof {
                lemma_qview_update(prevq, self.questions@, i as int);
                assert(questions_view(self.questions)[i as int] == self.questions@[i as int]@);
                assert(prevq.map_values(|q: QuestionData| q@)[i as int] == prevq[i as int]@);
            }
            i = i + 1;
        }
        proof {
            assert(questions_view(self.questions) =~= dedup_questions_spec(orig).map_values(
                |q: QuestionView|
                    QuestionView { question_options: dedup_options_spec(q.question_options), ..q },
            ));
        }
    }
}


// ------------------------------------------------------------------
// The canonicalization pipeline
// ------------------------------------------------------------------

pub(crate) proof fn lemma_oview_update(prev: Seq<QuestionOptionData>, now: Seq<QuestionOptionData>, i: int)
    requires
        0 <= i < prev.len(),
        now.len() == prev.len(),
        forall|j: int| 0 <= j < prev.len() && j != i ==> now[j] == prev[j],
    ensures
        forall|j: int| #![trigger now[j]]
            0 <= j < prev.len() && j != i ==> now.map_values(|o: QuestionOptionData| o@)[j]
                == prev.map_values(|o: QuestionOptionData| o@)[j],
{
    let nmv = now.map_values(|o: QuestionOptionData| o@);
    let pmv = prev.map_values(|o: QuestionOptionData| o@);
    assert forall|j: int| 0 <= j < prev.len() && j != i implies #[trigger] nmv[j] == pmv[j] by {
        assert(nmv[j] == now[j]@);
        assert(pmv[j] == prev[j]@);
    }
}

pub(crate) proof fn lemma_eview_update(prev: Seq<CourseEvaluationData>, now: Seq<CourseEvaluationData>, i: int)
    requires
        0 <= i < prev.len(),
        now.len() == prev.len(),
        forall|j: int| 0 <= j < prev.len() && j != i ==> now[j] == prev[j],
    ensures
        forall|j: int| #![trigger now[j]]
            0 <= j < prev.len() && j != i ==> now.map_values(|e: CourseEvaluationData| e@)[j]
                == prev.map_values(|e: CourseEvaluationData| e@)[j],
{
    let nmv = now.map_values(|e: CourseEvaluationData| e@);
    let pmv = prev.map_values(|e: CourseEvaluationData| e@);
    assert forall|j: int| 0 <= j < prev.len() && j != i implies #[trigger] nmv[j] == pmv[j] by {
        assert(nmv[j] == now[j]@);
        assert(pmv[j] == prev[j]@);
    }
}

/// A course with its key attached to every child: each question gets
/// the course key and pushes its identifier down to its options, and
/// each evaluation gets the course key.
pub open spec fn course_with_data(c: CourseView) -> CourseView {
    CourseView {
        questions: c.questions.map_values(|q: QuestionView| question_with_data(q, c.key)),
        evaluations: c.evaluations.map_values(
            |e: CourseEvaluationView|
                CourseEvaluationView { course_key: Option::Some(c.key), ..e },
        ),
        ..c
    }
}

/// A question with all digests recomputed bottom-up: options first,
/// then the question itself from its options' new digests.
pub open spec fn question_deep_rehashed(q: QuestionView) -> QuestionView {
    question_rehashed(
        QuestionView {
            question_options: q.question_options.map_values(
                |o: QuestionOptionView| option_rehashed(o),
            ),
            ..q
        },
    )
}

/// A course with all digests recomputed bottom-up.
pub open spec fn course_deep_rehashed(c: CourseView) -> CourseView {
    course_rehashed(
        CourseView {
            questions: c.questions.map_values(|q: QuestionView| question_deep_rehashed(q)),
            evaluations: c.evaluations.map_values(
                |e: CourseEvaluationView| evaluation_rehashed(e),
            ),
            ..c
        },
    )
}

/// The renames that formatting a course's questions requires, in
/// question order.
pub open spec fn course_renames(qs: Seq<QuestionView>) -> Seq<(Seq<char>, Seq<char>)>
    decreases qs.len(),
{
    if qs.len() == 0 {
        Seq::<(Seq<char>, Seq<char>)>::empty()
    } else {
        course_renames(qs.drop_last()) + (match image_rename_spec(qs.last()) {
            Option::Some(r) => seq![r],
            Option::None => Seq::<(Seq<char>, Seq<char>)>::empty(),
        })
    }
}

/// Every question's image reference can be canonicalized.
pub open spec fn course_renameable(c: CourseView) -> bool {
    forall|i: int| 0 <= i < c.questions.len() ==> image_renameable(#[trigger] c.questions[i])
}

/// A course's view after canonicalization: texts trimmed and image
/// names canonicalized, duplicates removed keeping first occurrences,
/// questions and options in canonical order, parent keys attached,
/// and every digest recomputed bottom-up.
pub open spec fn canon_spec(c: CourseView) -> CourseView {
    let f = CourseView {
        questions: c.questions.map_values(|q: QuestionView| question_formatted(q)),
        ..c
    };
    let d = CourseView {
        questions: dedup_questions_spec(f.questions).map_values(
            |q: QuestionView|
                QuestionView { question_options: dedup_options_spec(q.question_options), ..q },
        ),
        ..f
    };
    let so = CourseView {
        questions: sort_questions_spec(d.questions).map_values(
            |q: QuestionView|
                QuestionView { question_options: sort_options_spec(q.question_options), ..q },
        ),
        ..d
    };
    course_deep_rehashed(course_with_data(so))
}

impl QuestionData {
    /// Recomputes the digests of this question's options and then its
    /// own.
    pub fn rehash(&mut self)
        ensures
            final(self)@ == question_deep_rehashed(old(self)@),
    {
        let ghost orig = options_view(self.question_options);
        let mut i: usize = 0;
        while i < self.question_options.len()
            invariant
                i <= self.question_options.len(),
                self.question_options.len() == orig.len(),
                (QuestionView {
                    question_options: orig,
                    ..self@
                }) == old(self)@,
                forall|j: int|
                    0 <= j < i ==> options_view(self.question_options)[j] == option_rehashed(
                        #[trigger] orig[j],
                    ),
                forall|j: int|
                    i <= j < orig.len() ==> options_view(self.question_options)[j] == orig[j],
            decreases self.question_options.len() - i,
        {
            let ghost prevo = self.question_options@;
            self.question_options[i].set_hash();
            proof {
                lemma_oview_update(prevo, self.question_options@, i as int);
                assert(options_view(self.question_options)[i as int]
                    == self.question_options@[i as int]@);
                assert(prevo.map_values(|o: QuestionOptionData| o@)[i as int]
                    == prevo[i as int]@);
            }
            i = i + 1;
        }
        proof {
            assert(options_view(self.question_options) =~= orig.map_values(
                |o: QuestionOptionView| option_rehashed(o),
            ));
        }
        self.set_hash();
    }
}

impl CourseData {
    /// Attaches the course key to every question and evaluation, and
    /// each question's identifier to its options.
    pub fn set_data(&mut self)
        ensures
            final(self)@ == course_with_data(old(self)@),
    {
        let ghost origq = questions_view(self.questions);
        let ghost orige = evaluations_view(self.evaluations);
        let ghost ck = self.key@;
        let mut i: usize = 0;
        while i < self.questions.len()
            invariant
                i <= self.questions.len(),
                self.questions.len() == origq.len(),
                self@.key == ck,
                (CourseView {
                    questions: origq,
                    ..self@
                }) == old(self)@,
                forall|j: int|
                    0 <= j < i ==> questions_view(self.questions)[j] == question_with_data(
                        #[trigger] origq[j],
                        ck,
                    ),
                forall|j: int|
                    i <= j < origq.len() ==> questions_view(self.questions)[j] == origq[j],
            decreases self.questions.len() - i,
        {
            let ghost prevq = self.questions@;
            let key = self.key.clone();
            self.questions[i].set_data(key);
            proof {
                lemma_qview_update(prevq, self.questions@, i as int);
                assert(questions_view(self.questions)[i as int] == self.questions@[i as int]@);
                assert(prevq.map_values(|q: QuestionData| q@)[i as int] == prevq[i as int]@);
            }
            i = i + 1;
        }
        proof {
            assert(questions_view(self.questions) =~= origq.map_values(
                |q: QuestionView| question_with_data(q, ck),
            ));
        }
        let mut i: usize = 0;
        while i < self.evaluations.len()
            invariant
                i <= self.evaluations.len(),
                self.evaluations.len() == orige.len(),
                self@.key == ck,
                (CourseView {
                    evaluations: orige,
                    ..self@
                }) == (CourseView {
                    evaluations: orige,
                    questions: questions_view(self.questions),
                    ..old(self)@
                }),
                questions_view(self.questions) == origq.map_values(
                    |q: QuestionView| question_with_data(q, ck),
                ),
                forall|j: int|
                    0 <= j < i ==> evaluations_view(self.evaluations)[j]
                        == (CourseEvaluationView {
                        course_key: Option::Some(ck),
                        ..#[trigger] orige[j]
                    }),
                forall|j: int|
                    i <= j < orige.len() ==> evaluations_view(self.evaluations)[j] == orige[j],
            decreases self.evaluations.len() - i,
        {
            let ghost preve = self.evaluations@;
            let key = self.key.clone();
            self.evaluations[i].set_course_key(key);
            proof {
                lemma_eview_update(preve, self.evaluations@, i as int);
                assert(evaluations_view(self.evaluations)[i as int]
                    == self.evaluations@[i as int]@);
                assert(preve.map_values(|e: CourseEvaluationData| e@)[i as int]
                    == preve[i as int]@);
            }
            i = i + 1;
        }
        proof {
            assert(evaluations_view(self.evaluations) =~= orige.map_values(
                |e: CourseEvaluationView|
                    CourseEvaluationView { course_key: Option::Some(ck), ..e },
            ));
            assert(self@ == course_with_data(old(self)@));
        }
    }

    /// Formats every question, collecting the image renames the
    /// canonical names require.
    pub fn format(&mut self) -> (renames: Vec<ImageRename>)
        requires
            course_renameable(old(self)@),
        ensures
            final(self)@ == (CourseView {
                questions: old(self)@.questions.map_values(
                    |q: QuestionView| question_formatted(q),
                ),
                ..old(self)@
            }),
            renames@.map_values(|r: ImageRename| r@) == course_renames(old(self)@.questions),
    {
        let ghost origq = questions_view(self.questions);
        let mut renames: Vec<ImageRename> = Vec::new();
        let mut i: usize = 0;
        proof {
            assert(origq.take(0) =~= Seq::<QuestionView>::empty());
            assert(renames@.map_values(|r: ImageRename| r@) =~= Seq::<(
                Seq<char>,
                Seq<char>,
            )>::empty());
        }
        while i < self.questions.len()
            invariant
                i <= self.questions.len(),
                self.questions.len() == origq.len(),
                course_renameable(old(self)@),
                (CourseView {
                    questions: origq,
                    ..self@
                }) == old(self)@,
                renames@.map_values(|r: ImageRename| r@) == course_renames(
                    origq.take(i as int),
                ),
                forall|j: int|
                    0 <= j < i ==> questions_view(self.questions)[j] == question_formatted(
                        #[trigger] origq[j],
                    ),
                forall|j: int|
                    i <= j < origq.len() ==> questions_view(self.questions)[j] == origq[j],
            decreases self.questions.len() - i,
        {
            proof {
                assert(origq.take(i + 1).drop_last() =~= origq.take(i as int));
                assert(origq.take(i + 1).last() == origq[i as int]);
                assert(questions_view(self.questions)[i as int] == self.questions@[i as int]@);
                assert(image_renameable(old(self)@.questions[i as int]));
            }
            let ghost prevq = self.questions@;
            let ghost prevr = renames@;
            let r = self.questions[i].format();
            proof {
                lemma_qview_update(prevq, self.questions@, i as int);
                assert(questions_view(self.questions)[i as int] == self.questions@[i as int]@);
                assert(prevq.map_values(|q: QuestionData| q@)[i as int] == prevq[i as int]@);
            }
            match r {
                Option::Some(rn) => {
                    renames.push(rn);
                    proof {
                        let nmv = renames@.map_values(|r: ImageRename| r@);
                        let pmv = prevr.map_values(|r: ImageRename| r@);
                        assert forall|l: int| 0 <= l < renames@.len() implies #[trigger] nmv[l]
                            == pmv.push(rn@)[l] by {
                            assert(nmv[l] == renames@[l]@);
                            if l < prevr.len() {
                                assert(pmv[l] == prevr[l]@);
                            }
                        }
                        assert(nmv =~= pmv.push(rn@));
                        assert(nmv =~= course_renames(origq.take(i + 1)));
                    }
                },
                Option::None => {
                    proof {
                        assert(renames@.map_values(|r: ImageRename| r@) =~= course_renames(
                            origq.take(i + 1),
                        ));
                    }
                },
            }
            i = i + 1;
        }
        proof {
            assert(origq.take(origq.len() as int) =~= origq);
            assert(questions_view(self.questions) =~= origq.map_values(
                |q: QuestionView| question_formatted(q),
            ));
        }
        renames
    }

    /// Recomputes every digest bottom-up: options, questions,
    /// evaluations, then the course itself.
    pub fn rehash(&mut self)
        ensures
            final(self)@ == course_deep_rehashed(old(self)@),
    {
        let ghost origq = questions_view(self.questions);
        let ghost orige = evaluations_view(self.evaluations);
        let mut i: usize = 0;
        while i < self.questions.len()
            invariant
                i <= self.questions.len(),
                self.questions.len() == origq.len(),
                (CourseView {
                    questions: origq,
                    ..self@
                }) == old(self)@,
                forall|j: int|
                    0 <= j < i ==> questions_view(self.questions)[j] == question_deep_rehashed(
                        #[trigger] origq[j],
                    ),
                forall|j: int|
                    i <= j < origq.len() ==> questions_view(self.questions)[j] == origq[j],
            decreases self.questions.len() - i,
        {
            let ghost prevq = self.questions@;
            self.questions[i].rehash();
            proof {
                lemma_qview_update(prevq, self.questions@, i as int);
                assert(questions_view(self.questions)[i as int] == self.questions@[i as int]@);
                assert(prevq.map_values(|q: QuestionData| q@)[i as int] == prevq[i as int]@);
            }
            i = i + 1;
        }
        proof {
            assert(questions_view(self.questions) =~= origq.map_values(
                |q: QuestionView| question_deep_rehashed(q),
            ));
        }
        let mut i: usize = 0;
        while i < self.evaluations.len()
            invariant
                i <= self.evaluations.len(),
                self.evaluations.len() == orige.len(),
                (CourseView {
                    evaluations: orige,
                    ..self@
                }) == (CourseView {
                    evaluations: orige,
                    questions: questions_view(self.questions),
                    ..old(self)@
                }),
                questions_view(self.questions) == origq.map_values(
                    |q: QuestionView| question_deep_rehashed(q),
                ),
                forall|j: int|
                    0 <= j < i ==> evaluations_view(self.evaluations)[j] == evaluation_rehashed(
                        #[trigger] orige[j],
                    ),
                forall|j: int|
                    i <= j < orige.len() ==> evaluations_view(self.evaluations)[j] == orige[j],
            decreases self.evaluations.len() - i,
        {
            let ghost preve = self.evaluations@;
            self.evaluations[i].set_hash();
            proof {
                lemma_eview_update(preve, self.evaluations@, i as int);
                assert(evaluations_view(self.evaluations)[i as int]
                    == self.evaluations@[i as int]@);
                assert(preve.map_values(|e: CourseEvaluationData| e@)[i as int]
                    == preve[i as int]@);
            }
            i = i + 1;
        }
        proof {
            assert(evaluations_view(self.evaluations) =~= orige.map_values(
                |e: CourseEvaluationView| evaluation_rehashed(e),
            ));
        }
        self.set_hash();
        proof {
            assert(self@ == course_deep_rehashed(old(self)@));
        }
    }

    /// The whole canonicalization pipeline: format, deduplicate,
    /// sort, attach parent keys, recompute every digest bottom-up.
    /// Returns the image renames that formatting requires; performing
    /// them on disk is the caller's part.
    pub fn canonicalize(&mut self) -> (renames: Vec<ImageRename>)
        requires
            course_renameable(old(self)@),
        ensures
            final(self)@ == canon_spec(old(self)@),
            renames@.map_values(|r: ImageRename| r@) == course_renames(old(self)@.questions),
    {
        let renames = self.format();
        self.deduplicate();
        self.sort();
        self.set_data();
        self.rehash();
        proof {
            assert(self@ == canon_spec(old(self)@));
        }
        renames
    }
}

} // verus!
