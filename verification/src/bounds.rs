//! What answers can add up to: the lowest and highest value that a question
//! gives in a category, their sums over a question set, and the total of
//! given answers.

use crate::schema::{Category, ChoiceView, QuestionView};
use vstd::prelude::*;

verus! {

/// The answer that marks a question as not answered: it is the index of no
/// choice.
pub const UNANSWERED: u8 = 255;

/// The lowest value for `cat` among the first `n` choices (`n` at least 1).
pub open spec fn least_upto(choices: Seq<ChoiceView>, cat: Category, n: nat) -> int
    decreases n,
{
    if n == 0 {
        0
    } else if n == 1 {
        choices[0].score.at(cat)
    } else {
        let rest = least_upto(choices, cat, (n - 1) as nat);
        let last = choices[n - 1].score.at(cat);
        if last < rest {
            last
        } else {
            rest
        }
    }
}

/// The highest value for `cat` among the first `n` choices (`n` at least 1).
pub open spec fn greatest_upto(choices: Seq<ChoiceView>, cat: Category, n: nat) -> int
    decreases n,
{
    if n == 0 {
        0
    } else if n == 1 {
        choices[0].score.at(cat)
    } else {
        let rest = greatest_upto(choices, cat, (n - 1) as nat);
        let last = choices[n - 1].score.at(cat);
        if last > rest {
            last
        } else {
            rest
        }
    }
}

/// The lowest value for `cat` that a choice of the question gives.
pub open spec fn least(q: QuestionView, cat: Category) -> int {
    least_upto(q.choices, cat, q.choices.len())
}

/// The highest value for `cat` that a choice of the question gives.
pub open spec fn greatest(q: QuestionView, cat: Category) -> int {
    greatest_upto(q.choices, cat, q.choices.len())
}

/// The lowest value is below every choice's, the highest above, and each is
/// the value of some choice.
pub proof fn lemma_extremes(choices: Seq<ChoiceView>, cat: Category, n: nat)
    requires
        1 <= n <= choices.len(),
    ensures
        forall|i: int| 0 <= i < n ==> least_upto(choices, cat, n) <= (#[trigger] choices[i]).score.at(cat),
        forall|i: int| 0 <= i < n ==> greatest_upto(choices, cat, n) >= (#[trigger] choices[i]).score.at(cat),
        exists|i: int| 0 <= i < n && least_upto(choices, cat, n) == (#[trigger] choices[i]).score.at(cat),
        exists|i: int| 0 <= i < n && greatest_upto(choices, cat, n) == (#[trigger] choices[i]).score.at(cat),
        i32::MIN <= least_upto(choices, cat, n) <= greatest_upto(choices, cat, n) <= i32::MAX,
    decreases n,
{
    if n == 1 {
        assert(least_upto(choices, cat, n) == choices[0].score.at(cat));
        assert(greatest_upto(choices, cat, n) == choices[0].score.at(cat));
    } else {
        lemma_extremes(choices, cat, (n - 1) as nat);
        let lo = least_upto(choices, cat, (n - 1) as nat);
        let hi = greatest_upto(choices, cat, (n - 1) as nat);
        let i_lo = choose|i: int| 0 <= i < n - 1 && lo == (#[trigger] choices[i]).score.at(cat);
        let i_hi = choose|i: int| 0 <= i < n - 1 && hi == (#[trigger] choices[i]).score.at(cat);
        let last = choices[n - 1].score.at(cat);
        if last < lo {
            assert(least_upto(choices, cat, n) == choices[n - 1].score.at(cat));
        } else {
            assert(least_upto(choices, cat, n) == choices[i_lo].score.at(cat));
        }
        if last > hi {
            assert(greatest_upto(choices, cat, n) == choices[n - 1].score.at(cat));
        } else {
            assert(greatest_upto(choices, cat, n) == choices[i_hi].score.at(cat));
        }
    }
}

/// The sum over the first `n` questions of the lowest value for `cat`.
pub open spec fn floor_upto(qs: Seq<QuestionView>, cat: Category, n: nat) -> int
    decreases n,
{
    if n == 0 {
        0
    } else {
        floor_upto(qs, cat, (n - 1) as nat) + least(qs[n - 1], cat)
    }
}

/// The sum over the first `n` questions of the highest value for `cat`.
pub open spec fn ceiling_upto(qs: Seq<QuestionView>, cat: Category, n: nat) -> int
    decreases n,
{
    if n == 0 {
        0
    } else {
        ceiling_upto(qs, cat, (n - 1) as nat) + greatest(qs[n - 1], cat)
    }
}

/// The lowest running total for `cat` that answers to the first `n`
/// questions can give, a question left out counting as zero: the sum of the
/// lowest values below zero.
pub open spec fn reach_low_upto(qs: Seq<QuestionView>, cat: Category, n: nat) -> int
    decreases n,
{
    if n == 0 {
        0
    } else {
        reach_low_upto(qs, cat, (n - 1) as nat) + if least(qs[n - 1], cat) < 0 {
            least(qs[n - 1], cat)
        } else {
            0
        }
    }
}

/// The highest running total for `cat` that answers to the first `n`
/// questions can give: the sum of the highest values above zero.
pub open spec fn reach_high_upto(qs: Seq<QuestionView>, cat: Category, n: nat) -> int
    decreases n,
{
    if n == 0 {
        0
    } else {
        reach_high_upto(qs, cat, (n - 1) as nat) + if greatest(qs[n - 1], cat) > 0 {
            greatest(qs[n - 1], cat)
        } else {
            0
        }
    }
}

/// The lower bound for `cat`: each question taken at its lowest value.
pub open spec fn floor_sum(qs: Seq<QuestionView>, cat: Category) -> int {
    floor_upto(qs, cat, qs.len())
}

/// The upper bound for `cat`: each question taken at its highest value.
pub open spec fn ceiling_sum(qs: Seq<QuestionView>, cat: Category) -> int {
    ceiling_upto(qs, cat, qs.len())
}

/// Every question offers a choice.
pub open spec fn answerable(qs: Seq<QuestionView>) -> bool {
    forall|i: int| 0 <= i < qs.len() ==> (#[trigger] qs[i]).choices.len() >= 1
}

/// No running total of any answers leaves the range of a score's values.
pub open spec fn balanced(qs: Seq<QuestionView>) -> bool {
    forall|cat: Category|
        i32::MIN <= #[trigger] reach_low_upto(qs, cat, qs.len()) && reach_high_upto(
            qs,
            cat,
            qs.len(),
        ) <= i32::MAX
}

/// Every question has fewer choices than the marker for an unanswered
/// question counts, so that the marker is the index of no choice.
pub open spec fn capped(qs: Seq<QuestionView>) -> bool {
    forall|i: int| 0 <= i < qs.len() ==> (#[trigger] qs[i]).choices.len() <= UNANSWERED
}

/// What the answer `answer` to the question adds for `cat`: the value of the
/// choice with that index, and nothing where the answer is the marker for an
/// unanswered question or there is no such choice.
pub open spec fn gain(q: QuestionView, answer: u8, cat: Category) -> int {
    if answer != UNANSWERED && answer < q.choices.len() {
        q.choices[answer as int].score.at(cat)
    } else {
        0
    }
}

/// The total for `cat` of the answers to the first `n` questions.
pub open spec fn tally_upto(qs: Seq<QuestionView>, answers: Seq<u8>, cat: Category, n: nat) -> int
    decreases n,
{
    if n == 0 {
        0
    } else {
        tally_upto(qs, answers, cat, (n - 1) as nat) + gain(qs[n - 1], answers[n - 1], cat)
    }
}

/// The total for `cat` of one answer to each question.
pub open spec fn tally(qs: Seq<QuestionView>, answers: Seq<u8>, cat: Category) -> int {
    tally_upto(qs, answers, cat, qs.len())
}

/// The lowest value that a question gives is no higher than its highest.
pub proof fn lemma_least_le_greatest(q: QuestionView, cat: Category)
    ensures
        i32::MIN <= least(q, cat) <= greatest(q, cat) <= i32::MAX,
{
    if q.choices.len() >= 1 {
        lemma_extremes(q.choices, cat, q.choices.len());
    }
}

/// The reach widens with every question, and the bounds lie within it.
pub proof fn lemma_reach(qs: Seq<QuestionView>, cat: Category, n: nat, m: nat)
    requires
        n <= m <= qs.len(),
    ensures
        reach_low_upto(qs, cat, m) <= reach_low_upto(qs, cat, n) <= 0,
        0 <= reach_high_upto(qs, cat, n) <= reach_high_upto(qs, cat, m),
        reach_low_upto(qs, cat, n) <= floor_upto(qs, cat, n) <= ceiling_upto(qs, cat, n)
            <= reach_high_upto(qs, cat, n),
    decreases m,
{
    if m > 0 {
        if n < m {
            lemma_reach(qs, cat, n, (m - 1) as nat);
        } else {
            lemma_reach(qs, cat, (n - 1) as nat, (m - 1) as nat);
            lemma_least_le_greatest(qs[n - 1], cat);
        }
    }
}

/// The total of any answers lies within the reach.
pub proof fn lemma_tally_within_reach(
    qs: Seq<QuestionView>,
    answers: Seq<u8>,
    cat: Category,
    n: nat,
)
    requires
        n <= qs.len(),
        n <= answers.len(),
        answerable(qs),
    ensures
        reach_low_upto(qs, cat, n) <= tally_upto(qs, answers, cat, n) <= reach_high_upto(
            qs,
            cat,
            n,
        ),
    decreases n,
{
    if n > 0 {
        lemma_tally_within_reach(qs, answers, cat, (n - 1) as nat);
        let q = qs[n - 1];
        lemma_extremes(q.choices, cat, q.choices.len());
        if answers[n - 1] != UNANSWERED && answers[n - 1] < q.choices.len() {
            assert(least(q, cat) <= q.choices[answers[n - 1] as int].score.at(cat) <= greatest(
                q,
                cat,
            ));
        }
    }
}

/// The total of the answers to the first `n + m` questions is the total of
/// the first `n` and the total of the `m` after them, whichever is summed
/// first.
pub proof fn lemma_tally_split(
    qs: Seq<QuestionView>,
    answers: Seq<u8>,
    cat: Category,
    n: nat,
    m: nat,
)
    requires
        n + m <= qs.len(),
        n + m <= answers.len(),
    ensures
        tally_upto(qs, answers, cat, n + m) == tally_upto(qs, answers, cat, n) + tally_upto(
            qs.skip(n as int),
            answers.skip(n as int),
            cat,
            m,
        ),
    decreases m,
{
    if m > 0 {
        lemma_tally_split(qs, answers, cat, n, (m - 1) as nat);
    }
}

/// What each of the first `n` answers adds for `cat`, in the order of the
/// questions.
pub open spec fn gains(qs: Seq<QuestionView>, answers: Seq<u8>, cat: Category, n: nat) -> Seq<int> {
    Seq::new(n, |i: int| gain(qs[i], answers[i], cat))
}

/// The total of the first `n` answers is what their gains add up to, taken
/// one after the other from zero.
pub proof fn lemma_tally_is_sum_of_gains(
    qs: Seq<QuestionView>,
    answers: Seq<u8>,
    cat: Category,
    n: nat,
)
    ensures
        tally_upto(qs, answers, cat, n) == gains(qs, answers, cat, n).fold_left(
            0int,
            |total: int, g: int| total + g,
        ),
    decreases n,
{
    if n > 0 {
        lemma_tally_is_sum_of_gains(qs, answers, cat, (n - 1) as nat);
        assert(gains(qs, answers, cat, n).drop_last() =~= gains(qs, answers, cat, (n - 1) as nat));
    }
}

/// The total does not depend on the order in which the answers are summed:
/// two runs of answers that add the same amounts, in whatever order, have the
/// same total.
pub proof fn lemma_tally_any_order(
    qs1: Seq<QuestionView>,
    answers1: Seq<u8>,
    qs2: Seq<QuestionView>,
    answers2: Seq<u8>,
    cat: Category,
)
    requires
        gains(qs1, answers1, cat, qs1.len()).to_multiset() == gains(
            qs2,
            answers2,
            cat,
            qs2.len(),
        ).to_multiset(),
    ensures
        tally(qs1, answers1, cat) == tally(qs2, answers2, cat),
{
    let plus = |total: int, g: int| total + g;
    lemma_tally_is_sum_of_gains(qs1, answers1, cat, qs1.len());
    lemma_tally_is_sum_of_gains(qs2, answers2, cat, qs2.len());
    assert(vstd::seq_lib::commutative_foldl(plus));
    vstd::seq_lib::lemma_fold_left_permutation(
        gains(qs1, answers1, cat, qs1.len()),
        gains(qs2, answers2, cat, qs2.len()),
        plus,
        0int,
    );
}

} // verus!
