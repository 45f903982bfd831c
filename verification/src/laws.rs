//! Laws of the canonicalizer, proved once and for all: the canonical
//! orderings sort idempotently, trimming is idempotent, and
//! deduplication retains exactly one representative of every
//! duplicate class.

use vstd::prelude::*;
use crate::data::{CourseView, QuestionView, QuestionOptionView, question_eq_data};
use crate::canon::{
    option_le, question_le, options_sorted, questions_sorted, insert_sorted_option,
    insert_sorted_question, sort_options_spec, sort_questions_spec, dedup_questions_spec,
    contains_eq_question, lemma_option_le_connex, lemma_option_le_trans, lemma_question_le_connex,
    lemma_question_le_trans, canon_spec,
};

verus! {

proof fn lemma_insert_first_q(s: Seq<QuestionView>, x: QuestionView)
    ensures
        insert_sorted_question(s, x).len() == s.len() + 1,
        insert_sorted_question(s, x)[0] == x || (s.len() > 0 && insert_sorted_question(s, x)[0]
            == s[0]),
    decreases s.len(),
{
    if s.len() > 0 && question_le(s.first(), x) {
        lemma_insert_first_q(s.drop_first(), x);
    }
}

proof fn lemma_insert_preserves_sorted_q(s: Seq<QuestionView>, x: QuestionView)
    requires
        questions_sorted(s),
    ensures
        questions_sorted(insert_sorted_question(s, x)),
    decreases s.len(),
{
    lemma_insert_first_q(s, x);
    if s.len() == 0 {
    } else if question_le(s.first(), x) {
        let s1 = s.drop_first();
        assert(questions_sorted(s1)) by {
            assert forall|i: int, j: int| 0 <= i < j < s1.len() implies question_le(
                #[trigger] s1[i],
                #[trigger] s1[j],
            ) by {
                assert(s1[i] == s[i + 1]);
                assert(s1[j] == s[j + 1]);
            }
        }
        lemma_insert_preserves_sorted_q(s1, x);
        lemma_insert_first_q(s1, x);
        let r = insert_sorted_question(s1, x);
        let whole = seq![s.first()] + r;
        assert forall|i: int, j: int| 0 <= i < j < whole.len() implies question_le(
            #[trigger] whole[i],
            #[trigger] whole[j],
        ) by {
            if i == 0 {
                if r[0] == x || (s1.len() > 0 && r[0] == s1[0]) {
                    if j == 1 {
                        assert(whole[j] == r[0]);
                    } else {
                        assert(whole[j] == r[j - 1]);
                        assert(question_le(r[0], r[j - 1]));
                        if r[0] == x {
                            lemma_question_le_trans(s.first(), x, r[j - 1]);
                        } else {
                            assert(question_le(s[0], s[1]));
                            lemma_question_le_trans(s.first(), s1[0], r[j - 1]);
                        }
                    }
                }
            } else {
                assert(whole[i] == r[i - 1]);
                assert(whole[j] == r[j - 1]);
            }
        }
    } else {
        lemma_question_le_connex(s.first(), x);
        let whole = seq![x] + s;
        assert forall|i: int, j: int| 0 <= i < j < whole.len() implies question_le(
            #[trigger] whole[i],
            #[trigger] whole[j],
        ) by {
            if i == 0 {
                assert(whole[j] == s[j - 1]);
                if j > 1 {
                    lemma_question_le_trans(x, s[0], s[j - 1]);
                }
            } else {
                assert(whole[i] == s[i - 1]);
                assert(whole[j] == s[j - 1]);
            }
        }
    }
}

proof fn lemma_insert_at_end_q(s: Seq<QuestionView>, x: QuestionView)
    requires
        forall|j: int| 0 <= j < s.len() ==> question_le(#[trigger] s[j], x),
    ensures
        insert_sorted_question(s, x) == s.push(x),
    decreases s.len(),
{
    if s.len() == 0 {
        assert(insert_sorted_question(s, x) =~= s.push(x));
    } else {
        let s1 = s.drop_first();
        assert(forall|j: int| 0 <= j < s1.len() ==> question_le(#[trigger] s1[j], x));
        lemma_insert_at_end_q(s1, x);
        assert(insert_sorted_question(s, x) =~= s.push(x));
    }
}

/// The canonical question sort is sorted, and sorting a sorted
/// sequence returns it unchanged; sorting is therefore idempotent.
pub proof fn lemma_sort_questions_sorted(s: Seq<QuestionView>)
    ensures
        questions_sorted(sort_questions_spec(s)),
    decreases s.len(),
{
    if s.len() > 0 {
        lemma_sort_questions_sorted(s.drop_last());
        lemma_insert_preserves_sorted_q(sort_questions_spec(s.drop_last()), s.last());
    }
}

pub proof fn lemma_sort_questions_identity(s: Seq<QuestionView>)
    requires
        questions_sorted(s),
    ensures
        sort_questions_spec(s) == s,
    decreases s.len(),
{
    if s.len() > 0 {
        let init = s.drop_last();
        assert(questions_sorted(init)) by {
            assert forall|i: int, j: int| 0 <= i < j < init.len() implies question_le(
                #[trigger] init[i],
                #[trigger] init[j],
            ) by {
                assert(init[i] == s[i]);
                assert(init[j] == s[j]);
            }
        }
        lemma_sort_questions_identity(init);
        assert(forall|j: int| 0 <= j < init.len() ==> question_le(#[trigger] init[j], s.last()));
        lemma_insert_at_end_q(init, s.last());
        assert(init.push(s.last()) =~= s);
    }
}

/// Sorting the questions twice is the same as sorting them once.
pub proof fn lemma_sort_questions_idempotent(s: Seq<QuestionView>)
    ensures
        sort_questions_spec(sort_questions_spec(s)) == sort_questions_spec(s),
{
    lemma_sort_questions_sorted(s);
    lemma_sort_questions_identity(sort_questions_spec(s));
}

proof fn lemma_insert_first_o(s: Seq<QuestionOptionView>, x: QuestionOptionView)
    ensures
        insert_sorted_option(s, x).len() == s.len() + 1,
        insert_sorted_option(s, x)[0] == x || (s.len() > 0 && insert_sorted_option(s, x)[0]
            == s[0]),
    decreases s.len(),
{
    if s.len() > 0 && option_le(s.first(), x) {
        lemma_insert_first_o(s.drop_first(), x);
    }
}

proof fn lemma_insert_preserves_sorted_o(s: Seq<QuestionOptionView>, x: QuestionOptionView)
    requires
        options_sorted(s),
    ensures
        options_sorted(insert_sorted_option(s, x)),
    decreases s.len(),
{
    lemma_insert_first_o(s, x);
    if s.len() == 0 {
    } else if option_le(s.first(), x) {
        let s1 = s.drop_first();
        assert(options_sorted(s1)) by {
            assert forall|i: int, j: int| 0 <= i < j < s1.len() implies option_le(
                #[trigger] s1[i],
                #[trigger] s1[j],
            ) by {
                assert(s1[i] == s[i + 1]);
                assert(s1[j] == s[j + 1]);
            }
        }
        lemma_insert_preserves_sorted_o(s1, x);
        lemma_insert_first_o(s1, x);
        let r = insert_sorted_option(s1, x);
        let whole = seq![s.first()] + r;
        assert forall|i: int, j: int| 0 <= i < j < whole.len() implies option_le(
            #[trigger] whole[i],
            #[trigger] whole[j],
        ) by {
            if i == 0 {
                if r[0] == x || (s1.len() > 0 && r[0] == s1[0]) {
                    if j == 1 {
                        assert(whole[j] == r[0]);
                    } else {
                        assert(whole[j] == r[j - 1]);
                        assert(option_le(r[0], r[j - 1]));
                        if r[0] == x {
                            lemma_option_le_trans(s.first(), x, r[j - 1]);
                        } else {
                            assert(option_le(s[0], s[1]));
                            lemma_option_le_trans(s.first(), s1[0], r[j - 1]);
                        }
                    }
                }
            } else {
                assert(whole[i] == r[i - 1]);
                assert(whole[j] == r[j - 1]);
            }
        }
    } else {
        lemma_option_le_connex(s.first(), x);
        let whole = seq![x] + s;
        assert forall|i: int, j: int| 0 <= i < j < whole.len() implies option_le(
            #[trigger] whole[i],
            #[trigger] whole[j],
        ) by {
            if i == 0 {
                assert(whole[j] == s[j - 1]);
                if j > 1 {
                    lemma_option_le_trans(x, s[0], s[j - 1]);
                }
            } else {
                assert(whole[i] == s[i - 1]);
                assert(whole[j] == s[j - 1]);
            }
        }
    }
}

proof fn lemma_insert_at_end_o(s: Seq<QuestionOptionView>, x: QuestionOptionView)
    requires
        forall|j: int| 0 <= j < s.len() ==> option_le(#[trigger] s[j], x),
    ensures
        insert_sorted_option(s, x) == s.push(x),
    decreases s.len(),
{
    if s.len() == 0 {
        assert(insert_sorted_option(s, x) =~= s.push(x));
    } else {
        let s1 = s.drop_first();
        assert(forall|j: int| 0 <= j < s1.len() ==> option_le(#[trigger] s1[j], x));
        lemma_insert_at_end_o(s1, x);
        assert(insert_sorted_option(s, x) =~= s.push(x));
    }
}

/// The canonical option sort is sorted, and sorting a sorted sequence
/// returns it unchanged; sorting is therefore idempotent.
pub proof fn lemma_sort_options_sorted(s: Seq<QuestionOptionView>)
    ensures
        options_sorted(sort_options_spec(s)),
    decreases s.len(),
{
    if s.len() > 0 {
        lemma_sort_options_sorted(s.drop_last());
        lemma_insert_preserves_sorted_o(sort_options_spec(s.drop_last()), s.last());
    }
}

pub proof fn lemma_sort_options_identity(s: Seq<QuestionOptionView>)
    requires
        options_sorted(s),
    ensures
        sort_options_spec(s) == s,
    decreases s.len(),
{
    if s.len() > 0 {
        let init = s.drop_last();
        assert(options_sorted(init)) by {
            assert forall|i: int, j: int| 0 <= i < j < init.len() implies option_le(
                #[trigger] init[i],
                #[trigger] init[j],
            ) by {
                assert(init[i] == s[i]);
                assert(init[j] == s[j]);
            }
        }
        lemma_sort_options_identity(init);
        assert(forall|j: int| 0 <= j < init.len() ==> option_le(#[trigger] init[j], s.last()));
        lemma_insert_at_end_o(init, s.last());
        assert(init.push(s.last()) =~= s);
    }
}

/// Sorting the options twice is the same as sorting them once.
pub proof fn lemma_sort_options_idempotent(s: Seq<QuestionOptionView>)
    ensures
        sort_options_spec(sort_options_spec(s)) == sort_options_spec(s),
{
    lemma_sort_options_sorted(s);
    lemma_sort_options_identity(sort_options_spec(s));
}

/// Deduplication correctness: no two retained questions are
/// duplicates of each other, every input question has a retained
/// duplicate representative, and every retained question is one of
/// the inputs. In particular, of two duplicate questions that differ
/// only in their identifiers, exactly one is retained.
#[verifier::rlimit(60)]
pub proof fn lemma_dedup_questions_correct(s: Seq<QuestionView>)
    ensures
        forall|i: int, j: int|
            0 <= i < j < dedup_questions_spec(s).len() ==> !question_eq_data(
                #[trigger] dedup_questions_spec(s)[i],
                #[trigger] dedup_questions_spec(s)[j],
            ),
        forall|i: int|
            0 <= i < s.len() ==> exists|j: int|
                0 <= j < dedup_questions_spec(s).len() && question_eq_data(
                    #[trigger] s[i],
                    dedup_questions_spec(s)[j],
                ),
        forall|j: int|
            0 <= j < dedup_questions_spec(s).len() ==> exists|i: int|
                0 <= i < s.len() && #[trigger] dedup_questions_spec(s)[j] == s[i],
    decreases s.len(),
{
    if s.len() > 0 {
        lemma_dedup_questions_correct(s.drop_last());
        let prev = dedup_questions_spec(s.drop_last());
        let d = dedup_questions_spec(s);
        assert forall|i: int| 0 <= i < s.len() implies exists|j: int|
            0 <= j < d.len() && question_eq_data(#[trigger] s[i], d[j]) by {
            if i < s.len() - 1 {
                assert(s.drop_last()[i] == s[i]);
                let j = choose|j: int|
                    0 <= j < prev.len() && question_eq_data(s.drop_last()[i], prev[j]);
                if contains_eq_question(prev, s.last()) {
                    assert(d == prev);
                } else {
                    assert(d == prev.push(s.last()));
                    assert(d[j] == prev[j]);
                }
                assert(question_eq_data(s[i], d[j]));
            } else {
                if contains_eq_question(prev, s.last()) {
                    let j = choose|j: int|
                        0 <= j < prev.len() && question_eq_data(#[trigger] prev[j], s.last());
                    assert(question_eq_data(s[i], d[j]));
                } else {
                    assert(d == prev.push(s.last()));
                    assert(question_eq_data(s[i], d[d.len() - 1]));
                }
            }
        }
        assert forall|j: int| 0 <= j < dedup_questions_spec(s).len() implies exists|i: int|
            0 <= i < s.len() && #[trigger] dedup_questions_spec(s)[j] == s[i] by {
            let d2 = dedup_questions_spec(s);
            if j < prev.len() {
                assert(d2[j] == prev[j]);
                let i = choose|i: int| 0 <= i < s.drop_last().len() && prev[j] == s.drop_last()[i];
                assert(d2[j] == s[i]);
            } else {
                assert(d2[j] == s[s.len() - 1]);
            }
        }
    }
}

/// Deduplicating an already-deduplicated sequence changes nothing;
/// deduplication is therefore idempotent.
pub proof fn lemma_dedup_questions_identity(s: Seq<QuestionView>)
    requires
        forall|i: int, j: int|
            0 <= i < j < s.len() ==> !question_eq_data(#[trigger] s[i], #[trigger] s[j]),
    ensures
        dedup_questions_spec(s) == s,
    decreases s.len(),
{
    if s.len() > 0 {
        let init = s.drop_last();
        assert forall|i: int, j: int| 0 <= i < j < init.len() implies !question_eq_data(
            #[trigger] init[i],
            #[trigger] init[j],
        ) by {
            assert(init[i] == s[i]);
            assert(init[j] == s[j]);
        }
        lemma_dedup_questions_identity(init);
        if contains_eq_question(init, s.last()) {
            let i = choose|i: int|
                0 <= i < init.len() && question_eq_data(#[trigger] init[i], s.last());
            assert(question_eq_data(s[i], s[s.len() - 1]));
            assert(false);
        }
        assert(init.push(s.last()) =~= s);
    }
}

pub proof fn lemma_dedup_questions_idempotent(s: Seq<QuestionView>)
    ensures
        dedup_questions_spec(dedup_questions_spec(s)) == dedup_questions_spec(s),
{
    lemma_dedup_questions_correct(s);
    lemma_dedup_questions_identity(dedup_questions_spec(s));
}


proof fn lemma_insert_sorted_q_multiset(s: Seq<QuestionView>, x: QuestionView)
    ensures
        insert_sorted_question(s, x).to_multiset() =~= s.to_multiset().insert(x),
    decreases s.len(),
{
    broadcast use vstd::seq_lib::group_to_multiset_ensures;

    if s.len() == 0 {
        assert(insert_sorted_question(s, x) =~= s.push(x));
    } else if question_le(s.first(), x) {
        lemma_insert_sorted_q_multiset(s.drop_first(), x);
        let r = insert_sorted_question(s.drop_first(), x);
        vstd::seq_lib::lemma_multiset_commutative(seq![s.first()], r);
        vstd::seq_lib::lemma_multiset_commutative(seq![s.first()], s.drop_first());
        assert(seq![s.first()] + s.drop_first() =~= s);
        assert(seq![s.first()].to_multiset() =~= vstd::multiset::Multiset::<QuestionView>::empty().insert(
            s.first(),
        )) by {
            assert(seq![s.first()] =~= Seq::<QuestionView>::empty().push(s.first()));
        }
    } else {
        vstd::seq_lib::lemma_multiset_commutative(seq![x], s);
        assert(seq![x].to_multiset() =~= vstd::multiset::Multiset::<QuestionView>::empty().insert(x)) by {
            assert(seq![x] =~= Seq::<QuestionView>::empty().push(x));
        }
    }
}

/// The canonical question sort keeps exactly the same questions,
/// with multiplicity.
pub proof fn lemma_sort_questions_multiset(s: Seq<QuestionView>)
    ensures
        sort_questions_spec(s).to_multiset() =~= s.to_multiset(),
    decreases s.len(),
{
    broadcast use vstd::seq_lib::group_to_multiset_ensures;

    if s.len() > 0 {
        lemma_sort_questions_multiset(s.drop_last());
        lemma_insert_sorted_q_multiset(sort_questions_spec(s.drop_last()), s.last());
        assert(s =~= s.drop_last().push(s.last()));
    }
}

/// No two questions compare equal under the canonical order: their
/// sort keys (evaluation, asked date, text, identifier) all differ.
pub open spec fn questions_strictly_ordered(s: Seq<QuestionView>) -> bool {
    forall|i: int, j: int| #![trigger s[i], s[j]]
        0 <= i < s.len() && 0 <= j < s.len() && i != j ==> !(question_le(s[i], s[j])
            && question_le(s[j], s[i]))
}

/// The canonical order pins the sequence down: two sorted sequences
/// holding the same questions, with pairwise distinct sort keys, are
/// the same sequence. Together with the sort's multiset preservation,
/// a course's canonical question order — and hence its digest — does
/// not depend on the order in which the questions were authored.
pub proof fn lemma_canonical_question_order_unique(s1: Seq<QuestionView>, s2: Seq<QuestionView>)
    requires
        questions_sorted(s1),
        questions_sorted(s2),
        questions_strictly_ordered(s1),
        s1.to_multiset() == s2.to_multiset(),
    ensures
        s1 == s2,
    decreases s1.len(),
{
    broadcast use vstd::seq_lib::group_to_multiset_ensures;

    if s1.len() == 0 {
        assert(s2.to_multiset().len() == 0);
        assert(s1 =~= s2);
    } else {
        assert(s1.to_multiset().count(s1[0]) > 0);
        assert(s2.to_multiset().count(s1[0]) > 0);
        assert(s2.contains(s1[0]));
        let j = choose|j: int| 0 <= j < s2.len() && s2[j] == s1[0];
        assert(s1.to_multiset().count(s2[0]) > 0) by {
            assert(s2.contains(s2[0]));
        }
        assert(s1.contains(s2[0]));
        let i = choose|i: int| 0 <= i < s1.len() && s1[i] == s2[0];
        if s1[0] != s2[0] {
            assert(i != 0);
            assert(question_le(s2[0], s2[j]));
            assert(question_le(s1[0], s1[i]));
            assert(question_le(s1[i], s1[0]) && question_le(s1[0], s1[i]));
            assert(false);
        }
        let t1 = s1.drop_first();
        let t2 = s2.drop_first();
        assert(t1.to_multiset() =~= s1.to_multiset().remove(s1[0])) by {
            assert(s1.remove(0) =~= t1);
        }
        assert(t2.to_multiset() =~= s2.to_multiset().remove(s2[0])) by {
            assert(s2.remove(0) =~= t2);
        }
        assert(questions_sorted(t1) && questions_strictly_ordered(t1)) by {
            assert(forall|a: int| 0 <= a < t1.len() ==> #[trigger] t1[a] == s1[a + 1]);
        }
        assert(questions_sorted(t2)) by {
            assert(forall|a: int| 0 <= a < t2.len() ==> #[trigger] t2[a] == s2[a + 1]);
        }
        lemma_canonical_question_order_unique(t1, t2);
        assert(s1 =~= seq![s1[0]] + t1);
        assert(s2 =~= seq![s2[0]] + t2);
    }
}

/// Digest stability: two courses that agree on every field and hold
/// the same questions — in any order — have the same view, and so the
/// same digest, once both are in canonical question order.
pub proof fn lemma_course_digest_order_independent(c1: CourseView, c2: CourseView)
    requires
        questions_sorted(c1.questions),
        questions_sorted(c2.questions),
        questions_strictly_ordered(c1.questions),
        c1.questions.to_multiset() == c2.questions.to_multiset(),
        c2 == (CourseView { questions: c2.questions, ..c1 }),
    ensures
        c1 == c2,
{
    lemma_canonical_question_order_unique(c1.questions, c2.questions);
}


proof fn lemma_insert_sorted_o_multiset(s: Seq<QuestionOptionView>, x: QuestionOptionView)
    ensures
        insert_sorted_option(s, x).to_multiset() =~= s.to_multiset().insert(x),
    decreases s.len(),
{
    broadcast use vstd::seq_lib::group_to_multiset_ensures;

    if s.len() == 0 {
        assert(insert_sorted_option(s, x) =~= s.push(x));
    } else if option_le(s.first(), x) {
        lemma_insert_sorted_o_multiset(s.drop_first(), x);
        let r = insert_sorted_option(s.drop_first(), x);
        vstd::seq_lib::lemma_multiset_commutative(seq![s.first()], r);
        vstd::seq_lib::lemma_multiset_commutative(seq![s.first()], s.drop_first());
        assert(seq![s.first()] + s.drop_first() =~= s);
        assert(seq![s.first()].to_multiset() =~= vstd::multiset::Multiset::<
            QuestionOptionView,
        >::empty().insert(s.first())) by {
            assert(seq![s.first()] =~= Seq::<QuestionOptionView>::empty().push(s.first()));
        }
    } else {
        vstd::seq_lib::lemma_multiset_commutative(seq![x], s);
        assert(seq![x].to_multiset() =~= vstd::multiset::Multiset::<
            QuestionOptionView,
        >::empty().insert(x)) by {
            assert(seq![x] =~= Seq::<QuestionOptionView>::empty().push(x));
        }
    }
}

/// The canonical option sort keeps exactly the same options, with
/// multiplicity.
pub proof fn lemma_sort_options_multiset(s: Seq<QuestionOptionView>)
    ensures
        sort_options_spec(s).to_multiset() =~= s.to_multiset(),
    decreases s.len(),
{
    broadcast use vstd::seq_lib::group_to_multiset_ensures;

    if s.len() > 0 {
        lemma_sort_options_multiset(s.drop_last());
        lemma_insert_sorted_o_multiset(sort_options_spec(s.drop_last()), s.last());
        assert(s =~= s.drop_last().push(s.last()));
    }
}

/// No two options compare equal under the canonical order: at most
/// one is correct, and the incorrect ones have pairwise distinct
/// texts.
pub open spec fn options_strictly_ordered(s: Seq<QuestionOptionView>) -> bool {
    forall|i: int, j: int| #![trigger s[i], s[j]]
        0 <= i < s.len() && 0 <= j < s.len() && i != j ==> !(option_le(s[i], s[j]) && option_le(
            s[j],
            s[i],
        ))
}

/// The canonical order pins a question's options down: two sorted
/// option sequences holding the same options, with pairwise distinct
/// sort keys, are the same sequence. A question's canonical option
/// order — and hence its digest — does not depend on the order in
/// which its options were authored.
pub proof fn lemma_canonical_option_order_unique(
    s1: Seq<QuestionOptionView>,
    s2: Seq<QuestionOptionView>,
)
    requires
        options_sorted(s1),
        options_sorted(s2),
        options_strictly_ordered(s1),
        s1.to_multiset() == s2.to_multiset(),
    ensures
        s1 == s2,
    decreases s1.len(),
{
    broadcast use vstd::seq_lib::group_to_multiset_ensures;

    if s1.len() == 0 {
        assert(s2.to_multiset().len() == 0);
        assert(s1 =~= s2);
    } else {
        assert(s1.to_multiset().count(s1[0]) > 0);
        assert(s2.to_multiset().count(s1[0]) > 0);
        assert(s2.contains(s1[0]));
        let j = choose|j: int| 0 <= j < s2.len() && s2[j] == s1[0];
        assert(s1.to_multiset().count(s2[0]) > 0) by {
            assert(s2.contains(s2[0]));
        }
        assert(s1.contains(s2[0]));
        let i = choose|i: int| 0 <= i < s1.len() && s1[i] == s2[0];
        if s1[0] != s2[0] {
            assert(i != 0);
            assert(option_le(s2[0], s2[j]));
            assert(option_le(s1[0], s1[i]));
            assert(option_le(s1[i], s1[0]) && option_le(s1[0], s1[i]));
            assert(false);
        }
        let t1 = s1.drop_first();
        let t2 = s2.drop_first();
        assert(t1.to_multiset() =~= s1.to_multiset().remove(s1[0])) by {
            assert(s1.remove(0) =~= t1);
        }
        assert(t2.to_multiset() =~= s2.to_multiset().remove(s2[0])) by {
            assert(s2.remove(0) =~= t2);
        }
        assert(options_sorted(t1) && options_strictly_ordered(t1)) by {
            assert(forall|a: int| 0 <= a < t1.len() ==> #[trigger] t1[a] == s1[a + 1]);
        }
        assert(options_sorted(t2)) by {
            assert(forall|a: int| 0 <= a < t2.len() ==> #[trigger] t2[a] == s2[a + 1]);
        }
        lemma_canonical_option_order_unique(t1, t2);
        assert(s1 =~= seq![s1[0]] + t1);
        assert(s2 =~= seq![s2[0]] + t2);
    }
}


/// A canonicalized course's questions stand in canonical order: the
/// later passes (option ordering, key attachment, digest recomputation)
/// do not touch the fields the question order reads.
pub proof fn lemma_canon_questions_sorted(c: CourseView)
    ensures
        questions_sorted(canon_spec(c).questions),
{
    let f = CourseView {
        questions: c.questions.map_values(|q: QuestionView| crate::data::question_formatted(q)),
        ..c
    };
    let dq = dedup_questions_spec(f.questions).map_values(
        |q: QuestionView|
            QuestionView {
                question_options: crate::canon::dedup_options_spec(q.question_options),
                ..q
            },
    );
    let base = sort_questions_spec(dq);
    lemma_sort_questions_sorted(dq);
    let fin = canon_spec(c).questions;
    assert(fin.len() == base.len());
    assert forall|i: int| 0 <= i < fin.len() implies (#[trigger] fin[i]).evaluation
        == base[i].evaluation && fin[i].asked_at == base[i].asked_at && fin[i].text == base[i].text
        && fin[i].id == base[i].id by {
        let sorted_opts = base.map_values(
            |q: QuestionView|
                QuestionView {
                    question_options: sort_options_spec(q.question_options),
                    ..q
                },
        );
        let keyed = sorted_opts.map_values(
            |q: QuestionView| crate::data::question_with_data(q, c.key),
        );
        assert(fin[i] == keyed.map_values(
            |q: QuestionView| crate::canon::question_deep_rehashed(q),
        )[i]);
        assert(keyed[i] == crate::data::question_with_data(sorted_opts[i], c.key));
        assert(sorted_opts[i] == (QuestionView {
            question_options: sort_options_spec(base[i].question_options),
            ..base[i]
        }));
    }
    assert forall|i: int, j: int| 0 <= i < j < fin.len() implies question_le(
        #[trigger] fin[i],
        #[trigger] fin[j],
    ) by {
        assert(question_le(base[i], base[j]));
    }
}

} // verus!
