//! The question set: categories, scores, questions and their choices.

use crate::bounds::{answerable, balanced, capped, ceiling_sum, ceiling_upto, floor_sum};
use crate::bounds::{floor_upto, UNANSWERED};
use crate::bounds::{gain, greatest, greatest_upto, least, least_upto, tally, tally_upto};
use crate::bounds::{reach_high_upto, reach_low_upto};
use crate::bounds::{lemma_reach, lemma_tally_within_reach};
use crate::fingerprint::{content_bytes, fingerprint, fingerprint_of, storable};
use crate::fingerprint::lemma_content_bytes_apart;
use core::ops::Add;
use vec1::Vec1;
use vstd::prelude::*;
use vstd::std_specs::ops::AddSpec;
use vstd::std_specs::ops::AddSpecImpl;

verus! {

/// The axes along which a quiz is scored.
#[derive(Copy, Clone, Debug, PartialEq, Eq, Structural, Hash, PartialOrd, Ord)]
pub enum Category {
    Trashness,
    Sex,
    Alcohol,
    Drugs,
}

/// One signed value per category.
#[derive(Copy, Clone, Debug, PartialEq, Eq, Structural, Hash)]
pub struct Score {
    pub trashness: i32,
    pub sex: i32,
    pub alcohol: i32,
    pub drugs: i32,
}

impl Score {
    /// The value held for `cat`.
    pub open spec fn at(self, cat: Category) -> int {
        match cat {
            Category::Trashness => self.trashness as int,
            Category::Sex => self.sex as int,
            Category::Alcohol => self.alcohol as int,
            Category::Drugs => self.drugs as int,
        }
    }

    /// Whether the sum of the two fits in every category.
    pub open spec fn can_add(self, rhs: Score) -> bool {
        &&& i32::MIN <= self.trashness + rhs.trashness <= i32::MAX
        &&& i32::MIN <= self.sex + rhs.sex <= i32::MAX
        &&& i32::MIN <= self.alcohol + rhs.alcohol <= i32::MAX
        &&& i32::MIN <= self.drugs + rhs.drugs <= i32::MAX
    }

    /// The score that is zero in every category.
    pub open spec fn zero() -> Score {
        Score { trashness: 0, sex: 0, alcohol: 0, drugs: 0 }
    }

    /// The value held for `cat`.
    pub fn get(&self, cat: Category) -> (r: i32)
        ensures
            r == self.at(cat),
    {
        match cat {
            Category::Trashness => self.trashness,
            Category::Sex => self.sex,
            Category::Alcohol => self.alcohol,
            Category::Drugs => self.drugs,
        }
    }

    /// The sum in every category, or `None` where one of them does not fit.
    pub fn checked_add(self, rhs: Score) -> (r: Option<Score>)
        ensures
            r is Some <==> self.can_add(rhs),
            r is Some ==> forall|cat: Category| #[trigger]
                r->Some_0.at(cat) == self.at(cat) + rhs.at(cat),
    {
        let trashness = self.trashness.checked_add(rhs.trashness);
        let sex = self.sex.checked_add(rhs.sex);
        let alcohol = self.alcohol.checked_add(rhs.alcohol);
        let drugs = self.drugs.checked_add(rhs.drugs);
        match (trashness, sex, alcohol, drugs) {
            (Some(trashness), Some(sex), Some(alcohol), Some(drugs)) => Some(
                Score { trashness, sex, alcohol, drugs },
            ),
            _ => None,
        }
    }
}

/// The sum for `cat` of the first `n` scores.
pub open spec fn sum_upto(scores: Seq<Score>, cat: Category, n: nat) -> int
    decreases n,
{
    if n == 0 {
        0
    } else {
        sum_upto(scores, cat, (n - 1) as nat) + scores[n - 1].at(cat)
    }
}

/// Whether the sum of the first `n` scores, and of every shorter run from the
/// first on, fits in every category.
pub open spec fn sums_fit(scores: Seq<Score>, n: nat) -> bool {
    forall|cat: Category, k: nat|
        k <= n ==> i32::MIN <= #[trigger] sum_upto(scores, cat, k) <= i32::MAX
}

impl Score {
    /// The sum of the scores in every category, taken from the first on:
    /// zero for none, and `None` where a running total does not fit.
    pub fn sum(scores: &[Score]) -> (r: Option<Score>)
        ensures
            r is Some <==> sums_fit(scores@, scores@.len()),
            r is Some ==> forall|cat: Category| #[trigger]
                r->Some_0.at(cat) == sum_upto(scores@, cat, scores@.len()),
    {
        let mut total = Score::default();
        let mut i: usize = 0;
        while i < scores.len()
            invariant
                i <= scores.len(),
                sums_fit(scores@, i as nat),
                forall|cat: Category| #[trigger] total.at(cat) == sum_upto(scores@, cat, i as nat),
            decreases scores.len() - i,
        {
            proof {
                lemma_add_pointwise(total, scores@[i as int]);
            }
            match total.checked_add(scores[i]) {
                Some(next) => {
                    assert forall|cat: Category, k: nat| k <= i + 1 implies i32::MIN
                        <= #[trigger] sum_upto(scores@, cat, k) <= i32::MAX by {
                        if k == i + 1 {
                            assert(next.at(cat) == total.at(cat) + scores@[i as int].at(cat));
                        }
                    }
                    assert forall|cat: Category| #[trigger]
                        next.at(cat) == sum_upto(scores@, cat, (i + 1) as nat) by {
                        assert(next.at(cat) == total.at(cat) + scores@[i as int].at(cat));
                    }
                    total = next;
                },
                None => {
                    assert(!sums_fit(scores@, scores@.len())) by {
                        if sums_fit(scores@, scores@.len()) {
                            assert forall|cat: Category|
                                i32::MIN <= #[trigger] total.at(cat) + scores@[i as int].at(cat)
                                    <= i32::MAX by {
                                assert(i32::MIN <= sum_upto(scores@, cat, (i + 1) as nat)
                                    <= i32::MAX);
                            }
                        }
                    }
                    return None;
                },
            }
            i += 1;
        }
        Some(total)
    }
}

impl Default for Score {
    fn default() -> (r: Score)
        ensures
            r == Score::zero(),
    {
        Score { trashness: 0, sex: 0, alcohol: 0, drugs: 0 }
    }
}

impl AddSpecImpl for Score {
    open spec fn obeys_add_spec() -> bool {
        true
    }

    open spec fn add_req(self, rhs: Score) -> bool {
        self.can_add(rhs)
    }

    open spec fn add_spec(self, rhs: Score) -> Score {
        Score {
            trashness: (self.trashness + rhs.trashness) as i32,
            sex: (self.sex + rhs.sex) as i32,
            alcohol: (self.alcohol + rhs.alcohol) as i32,
            drugs: (self.drugs + rhs.drugs) as i32,
        }
    }
}

impl Add for Score {
    type Output = Score;

    /// The sum in every category.
    fn add(self, rhs: Score) -> (r: Score) {
        Score {
            trashness: self.trashness + rhs.trashness,
            sex: self.sex + rhs.sex,
            alcohol: self.alcohol + rhs.alcohol,
            drugs: self.drugs + rhs.drugs,
        }
    }
}

/// The sum fits where it fits for each category, and then holds the sum of
/// the two values in every category.
pub proof fn lemma_add_pointwise(a: Score, b: Score)
    ensures
        a.can_add(b) <==> forall|cat: Category|
            i32::MIN <= #[trigger] a.at(cat) + b.at(cat) <= i32::MAX,
        a.can_add(b) ==> forall|cat: Category| #[trigger]
            AddSpec::add_spec(a, b).at(cat) == a.at(cat) + b.at(cat),
{
    if forall|cat: Category| i32::MIN <= #[trigger] a.at(cat) + b.at(cat) <= i32::MAX {
        assert(i32::MIN <= a.at(Category::Trashness) + b.at(Category::Trashness) <= i32::MAX);
        assert(i32::MIN <= a.at(Category::Sex) + b.at(Category::Sex) <= i32::MAX);
        assert(i32::MIN <= a.at(Category::Alcohol) + b.at(Category::Alcohol) <= i32::MAX);
        assert(i32::MIN <= a.at(Category::Drugs) + b.at(Category::Drugs) <= i32::MAX);
    }
}

/// An answer that can be picked, and what picking it adds to the score.
#[derive(Debug, Hash)]
pub struct Choice {
    pub text: String,
    pub score: Score,
}

/// What a choice holds.
pub struct ChoiceView {
    pub text: Seq<char>,
    pub score: Score,
}

impl View for Choice {
    type V = ChoiceView;

    open spec fn view(&self) -> ChoiceView {
        ChoiceView { text: self.text@, score: self.score }
    }
}

#[verifier::external_type_specification]
#[verifier::external_body]
#[verifier::reject_recursive_types(I)]
pub struct ExVec1<I>(Vec1<I>);

/// The choices that a `Vec1` holds, first to last.
pub uninterp spec fn choice_seq(v: Vec1<Choice>) -> Seq<Choice>;

/// `Vec1::as_vec`: the same items seen as a `Vec`. A `Vec1` is never empty.
#[verifier::external_body]
fn choices_as_vec(v: &Vec1<Choice>) -> (r: &Vec<Choice>)
    ensures
        r@ == choice_seq(*v),
        r@.len() >= 1,
{
    v.as_vec()
}

/// A question and the choices offered for it.
#[derive(Debug, Hash)]
pub struct Question {
    pub question: String,
    pub choices: Vec1<Choice>,
    pub id: u32,
}

/// What a question holds.
pub struct QuestionView {
    pub question: Seq<char>,
    pub choices: Seq<ChoiceView>,
    pub id: u32,
}

impl View for Question {
    type V = QuestionView;

    open spec fn view(&self) -> QuestionView {
        QuestionView {
            question: self.question@,
            choices: choice_seq(self.choices).map_values(|c: Choice| c@),
            id: self.id,
        }
    }
}

impl Question {
    /// The choices, as a `Vec`: there is at least one.
    pub fn choices_vec(&self) -> (r: &Vec<Choice>)
        ensures
            r@.map_values(|c: Choice| c@) == self@.choices,
            r@.len() == self@.choices.len(),
            r@.len() >= 1,
    {
        choices_as_vec(&self.choices)
    }

    /// The lowest (or, with `upper`, the highest) value for `cat` among the
    /// choices.
    fn score_reduce(&self, cat: Category, upper: bool) -> (r: i32)
        ensures
            self@.choices.len() >= 1,
            r == if upper {
                greatest(self@, cat)
            } else {
                least(self@, cat)
            },
    {
        let choices = self.choices_vec();
        let mut found: i32 = choices[0].score.get(cat);
        let mut i: usize = 1;
        while i < choices.len()
            invariant
                1 <= i <= choices.len(),
                choices@.map_values(|c: Choice| c@) == self@.choices,
                found == if upper {
                    greatest_upto(self@.choices, cat, i as nat)
                } else {
                    least_upto(self@.choices, cat, i as nat)
                },
            decreases choices.len() - i,
        {
            let value: i32 = choices[i].score.get(cat);
            assert(choices@.map_values(|c: Choice| c@)[i as int] == choices@[i as int]@);
            if upper {
                if value > found {
                    found = value;
                }
            } else {
                if value < found {
                    found = value;
                }
            }
            i += 1;
        }
        found
    }

    /// For each category, the lowest value that a choice gives.
    pub fn score_min(&self) -> (r: Score)
        ensures
            self@.choices.len() >= 1,
            forall|cat: Category| #[trigger] r.at(cat) == least(self@, cat),
    {
        Score {
            trashness: self.score_reduce(Category::Trashness, false),
            sex: self.score_reduce(Category::Sex, false),
            alcohol: self.score_reduce(Category::Alcohol, false),
            drugs: self.score_reduce(Category::Drugs, false),
        }
    }

    /// For each category, the highest value that a choice gives.
    pub fn score_max(&self) -> (r: Score)
        ensures
            self@.choices.len() >= 1,
            forall|cat: Category| #[trigger] r.at(cat) == greatest(self@, cat),
    {
        Score {
            trashness: self.score_reduce(Category::Trashness, true),
            sex: self.score_reduce(Category::Sex, true),
            alcohol: self.score_reduce(Category::Alcohol, true),
            drugs: self.score_reduce(Category::Drugs, true),
        }
    }
}

/// The views of a sequence of questions.
pub open spec fn question_views(questions: Seq<Question>) -> Seq<QuestionView> {
    questions.map_values(|q: Question| q@)
}

/// The values below zero, and zero for the others.
fn below_zero(s: Score) -> (r: Score)
    ensures
        forall|cat: Category| #[trigger] r.at(cat) == if s.at(cat) < 0 {
            s.at(cat)
        } else {
            0
        },
{
    Score {
        trashness: if s.trashness < 0 { s.trashness } else { 0 },
        sex: if s.sex < 0 { s.sex } else { 0 },
        alcohol: if s.alcohol < 0 { s.alcohol } else { 0 },
        drugs: if s.drugs < 0 { s.drugs } else { 0 },
    }
}

/// The values above zero, and zero for the others.
fn above_zero(s: Score) -> (r: Score)
    ensures
        forall|cat: Category| #[trigger] r.at(cat) == if s.at(cat) > 0 {
            s.at(cat)
        } else {
            0
        },
{
    Score {
        trashness: if s.trashness > 0 { s.trashness } else { 0 },
        sex: if s.sex > 0 { s.sex } else { 0 },
        alcohol: if s.alcohol > 0 { s.alcohol } else { 0 },
        drugs: if s.drugs > 0 { s.drugs } else { 0 },
    }
}

/// Why questions make no question set.
#[derive(Clone, Copy, Debug, PartialEq, Eq, Structural)]
pub enum BuildError {
    /// A question has so many choices that one of them would have the index
    /// that marks an unanswered question.
    TooManyChoices,
    /// Some running total of answers to the questions would not fit a score.
    ScoreOverflow,
}

/// A question set with what is computed from it once: its fingerprint and
/// the bounds of the score in each category.
pub struct Questions {
    questions: Vec<Question>,
    mins: Score,
    maxes: Score,
    cached_hash: u64,
}

impl View for Questions {
    type V = Seq<QuestionView>;

    closed spec fn view(&self) -> Seq<QuestionView> {
        question_views(self.questions@)
    }
}

impl Questions {
    /// What holds of every question set: each question offers a choice, no
    /// running total overflows, and the cached values are those of the
    /// questions.
    #[verifier::type_invariant]
    pub closed spec fn wf(&self) -> bool {
        &&& answerable(self@)
        &&& capped(self@)
        &&& balanced(self@)
        &&& storable(self@)
        &&& forall|cat: Category| #[trigger] self.mins.at(cat) == floor_sum(self@, cat)
        &&& forall|cat: Category| #[trigger] self.maxes.at(cat) == ceiling_sum(self@, cat)
        &&& self.cached_hash == fingerprint_of(self@)
    }

    /// The fingerprint that the set holds.
    pub closed spec fn spec_cached_hash(&self) -> u64 {
        self.cached_hash
    }

    /// The lower bounds that the set holds.
    pub closed spec fn spec_mins(&self) -> Score {
        self.mins
    }

    /// The upper bounds that the set holds.
    pub closed spec fn spec_maxes(&self) -> Score {
        self.maxes
    }

    /// What a well-formed question set holds.
    pub proof fn lemma_wf(&self)
        requires
            self.wf(),
        ensures
            answerable(self@),
            capped(self@),
            balanced(self@),
            storable(self@),
            self.spec_cached_hash() == fingerprint_of(self@),
            forall|cat: Category| #[trigger] self.spec_mins().at(cat) == floor_sum(self@, cat),
            forall|cat: Category| #[trigger] self.spec_maxes().at(cat) == ceiling_sum(self@, cat),
    {
    }

    /// The question set of `questions`, in their order. Fails where a
    /// question has a choice at the index of the marker for an unanswered
    /// question; else where some running total of answers would not fit a
    /// score; and nowhere else.
    pub fn build(questions: Vec<Question>) -> (r: Result<Questions, BuildError>)
        ensures
            match r {
                Ok(set) => set@ == question_views(questions@) && set.wf(),
                Err(BuildError::TooManyChoices) => !capped(question_views(questions@)),
                Err(BuildError::ScoreOverflow) => capped(question_views(questions@)) && !balanced(
                    question_views(questions@),
                ),
            },
    {
        let ghost qs = question_views(questions@);
        let mut k: usize = 0;
        while k < questions.len()
            invariant
                k <= questions.len(),
                qs == question_views(questions@),
                forall|j: int| 0 <= j < k ==> (#[trigger] qs[j]).choices.len() <= UNANSWERED,
            decreases questions.len() - k,
        {
            assert(qs[k as int] == questions@[k as int]@);
            if questions[k].choices_vec().len() > UNANSWERED as usize {
                return Err(BuildError::TooManyChoices);
            }
            k += 1;
        }
        let mut mins = Score::default();
        let mut maxes = Score::default();
        let mut low = Score::default();
        let mut high = Score::default();
        let mut i: usize = 0;
        while i < questions.len()
            invariant
                i <= questions.len(),
                qs == question_views(questions@),
                capped(qs),
                forall|j: int| 0 <= j < i ==> (#[trigger] qs[j]).choices.len() >= 1,
                forall|cat: Category| #[trigger] mins.at(cat) == floor_upto(qs, cat, i as nat),
                forall|cat: Category| #[trigger] maxes.at(cat) == ceiling_upto(qs, cat, i as nat),
                forall|cat: Category| #[trigger] low.at(cat) == reach_low_upto(qs, cat, i as nat),
                forall|cat: Category| #[trigger] high.at(cat) == reach_high_upto(qs, cat, i as nat),
            decreases questions.len() - i,
        {
            let q = &questions[i];
            let lo = q.score_min();
            let hi = q.score_max();
            assert(qs[i as int] == q@);
            let lo_part = below_zero(lo);
            let hi_part = above_zero(hi);
            proof {
                lemma_add_pointwise(low, lo_part);
                lemma_add_pointwise(high, hi_part);
                lemma_add_pointwise(mins, lo);
                lemma_add_pointwise(maxes, hi);
            }
            match (low.checked_add(lo_part), high.checked_add(hi_part)) {
                (Some(next_low), Some(next_high)) => {
                    proof {
                        assert forall|cat: Category| #[trigger]
                            next_low.at(cat) == reach_low_upto(qs, cat, (i + 1) as nat) by {
                            assert(next_low.at(cat) == low.at(cat) + lo_part.at(cat));
                        }
                        assert forall|cat: Category| #[trigger]
                            next_high.at(cat) == reach_high_upto(qs, cat, (i + 1) as nat) by {
                            assert(next_high.at(cat) == high.at(cat) + hi_part.at(cat));
                        }
                        assert forall|cat: Category|
                            i32::MIN <= #[trigger] mins.at(cat) + lo.at(cat) <= i32::MAX by {
                            assert(i32::MIN <= next_low.at(cat) && next_high.at(cat) <= i32::MAX);
                            lemma_reach(qs, cat, (i + 1) as nat, (i + 1) as nat);
                        }
                        assert forall|cat: Category|
                            i32::MIN <= #[trigger] maxes.at(cat) + hi.at(cat) <= i32::MAX by {
                            assert(i32::MIN <= next_low.at(cat) && next_high.at(cat) <= i32::MAX);
                            lemma_reach(qs, cat, (i + 1) as nat, (i + 1) as nat);
                        }
                    }
                    mins = mins + lo;
                    maxes = maxes + hi;
                    low = next_low;
                    high = next_high;
                },
                _ => {
                    proof {
                        if balanced(qs) {
                            assert forall|cat: Category|
                                i32::MIN <= #[trigger] low.at(cat) + lo_part.at(cat)
                                    <= i32::MAX by {
                                lemma_reach(qs, cat, (i + 1) as nat, qs.len());
                                assert(i32::MIN <= reach_low_upto(qs, cat, qs.len()));
                                assert(low.at(cat) == reach_low_upto(qs, cat, i as nat));
                            }
                            assert forall|cat: Category|
                                i32::MIN <= #[trigger] high.at(cat) + hi_part.at(cat)
                                    <= i32::MAX by {
                                lemma_reach(qs, cat, (i + 1) as nat, qs.len());
                                assert(reach_high_upto(qs, cat, qs.len()) <= i32::MAX);
                                assert(high.at(cat) == reach_high_upto(qs, cat, i as nat));
                            }
                        }
                    }
                    return Err(BuildError::ScoreOverflow);
                },
            }
            i += 1;
        }
        let cached_hash = fingerprint(&questions);
        proof {
            assert(answerable(qs));
            assert(capped(qs));
            assert forall|cat: Category|
                i32::MIN <= #[trigger] reach_low_upto(qs, cat, qs.len()) && reach_high_upto(
                    qs,
                    cat,
                    qs.len(),
                ) <= i32::MAX by {
                assert(low.at(cat) == reach_low_upto(qs, cat, qs.len()));
                assert(high.at(cat) == reach_high_upto(qs, cat, qs.len()));
            }
        }
        Ok(Questions { questions, mins, maxes, cached_hash })
    }

    /// The number of questions.
    pub fn len(&self) -> (n: usize)
        ensures
            n == self@.len(),
    {
        self.questions.len()
    }

    /// The questions, in order.
    pub fn questions(&self) -> (r: &Vec<Question>)
        ensures
            question_views(r@) == self@,
            answerable(self@),
            capped(self@),
            balanced(self@),
    {
        proof {
            use_type_invariant(self);
        }
        &self.questions
    }

    /// The question at `idx`, where there is one.
    pub fn get(&self, idx: usize) -> (r: Option<&Question>)
        ensures
            match r {
                Some(q) => idx < self@.len() && q@ == self@[idx as int],
                None => idx >= self@.len(),
            },
    {
        if idx < self.questions.len() {
            Some(&self.questions[idx])
        } else {
            None
        }
    }

    /// The fingerprint of the content: the same for the same questions in
    /// the same order.
    pub fn cached_hash(&self) -> (h: u64)
        ensures
            h == fingerprint_of(self@),
            h == self.spec_cached_hash(),
    {
        proof {
            use_type_invariant(self);
        }
        self.cached_hash
    }

    /// For each category, the sum over the questions of the lowest value
    /// that a choice gives.
    pub fn mins(&self) -> (s: Score)
        ensures
            s == self.spec_mins(),
            forall|cat: Category| #[trigger] s.at(cat) == floor_sum(self@, cat),
    {
        proof {
            use_type_invariant(self);
        }
        self.mins
    }

    /// For each category, the sum over the questions of the highest value
    /// that a choice gives.
    pub fn maxes(&self) -> (s: Score)
        ensures
            s == self.spec_maxes(),
            forall|cat: Category| #[trigger] s.at(cat) == ceiling_sum(self@, cat),
    {
        proof {
            use_type_invariant(self);
        }
        self.maxes
    }
}

impl Questions {
    /// The score of `answers`, one for each question: in each category the
    /// sum of what each answer adds. The marker for an unanswered question,
    /// and an answer that names no choice, add nothing. There is no score where the answers are more or fewer than
    /// the questions.
    pub fn score(&self, answers: &[u8]) -> (r: Option<Score>)
        ensures
            r is Some <==> answers@.len() == self@.len(),
            r is Some ==> forall|cat: Category| #[trigger]
                r->Some_0.at(cat) == tally(self@, answers@, cat),
    {
        proof {
            use_type_invariant(self);
        }
        if answers.len() != self.questions.len() {
            return None;
        }
        let ghost qs = self@;
        let mut total = Score::default();
        let mut i: usize = 0;
        while i < self.questions.len()
            invariant
                i <= self.questions.len(),
                self.questions@.len() == answers@.len(),
                qs == question_views(self.questions@),
                answerable(qs),
                balanced(qs),
                forall|cat: Category| #[trigger]
                    total.at(cat) == tally_upto(qs, answers@, cat, i as nat),
            decreases self.questions.len() - i,
        {
            let choices = self.questions[i].choices_vec();
            let answer = answers[i];
            assert(qs[i as int] == self.questions@[i as int]@);
            if answer != UNANSWERED && (answer as usize) < choices.len() {
                let picked = choices[answer as usize].score;
                proof {
                    assert(choices@.map_values(|c: Choice| c@)[answer as int]
                        == choices@[answer as int]@);
                    lemma_add_pointwise(total, picked);
                    assert forall|cat: Category|
                        i32::MIN <= #[trigger] total.at(cat) + picked.at(cat) <= i32::MAX by {
                        assert(picked.at(cat) == gain(qs[i as int], answer, cat));
                        lemma_tally_within_reach(qs, answers@, cat, (i + 1) as nat);
                        lemma_reach(qs, cat, (i + 1) as nat, qs.len());
                    }
                    assert forall|cat: Category| #[trigger]
                        AddSpec::add_spec(total, picked).at(cat) == tally_upto(
                            qs,
                            answers@,
                            cat,
                            (i + 1) as nat,
                        ) by {
                        assert(picked.at(cat) == gain(qs[i as int], answer, cat));
                    }
                }
                total = total + picked;
            } else {
                assert forall|cat: Category| #[trigger]
                    total.at(cat) == tally_upto(qs, answers@, cat, (i + 1) as nat) by {
                    assert(gain(qs[i as int], answer, cat) == 0);
                }
            }
            i += 1;
        }
        Some(total)
    }

    /// The positions of the questions whose id is not their position, in
    /// rising order.
    pub fn id_mismatches(&self) -> (r: Vec<usize>)
        ensures
            forall|k: int|
                0 <= k < r@.len() ==> r@[k] < self@.len() && self@[r@[k] as int].id != r@[k],
            forall|i: int| 0 <= i < self@.len() && self@[i].id != i ==> r@.contains(i as usize),
            forall|j: int, k: int| 0 <= j < k < r@.len() ==> r@[j] < r@[k],
    {
        let mut found: Vec<usize> = Vec::new();
        let mut i: usize = 0;
        while i < self.questions.len()
            invariant
                i <= self.questions.len(),
                forall|k: int|
                    0 <= k < found@.len() ==> found@[k] < i && self@[found@[k] as int].id
                        != found@[k],
                forall|j: int| 0 <= j < i && self@[j].id != j ==> found@.contains(j as usize),
                forall|j: int, k: int| 0 <= j < k < found@.len() ==> found@[j] < found@[k],
            decreases self.questions.len() - i,
        {
            let ghost before = found@;
            assert(self@[i as int] == self.questions@[i as int]@);
            if i != self.questions[i].id as usize {
                found.push(i);
                assert(found@[before.len() as int] == i);
                assert forall|j: int| 0 <= j < i && self@[j].id != j implies found@.contains(
                    j as usize,
                ) by {
                    let k = choose|k: int| 0 <= k < before.len() && before[k] == j as usize;
                    assert(found@[k] == j as usize);
                }
            }
            i += 1;
        }
        found
    }
}

/// Question sets that differ in anything (a text, an id, a score, the order,
/// the number of questions or of choices) differ in the bytes that their
/// fingerprints are the hash of.
pub proof fn lemma_fingerprint_input_apart(a: Questions, b: Questions)
    requires
        a.wf(),
        b.wf(),
        a@ != b@,
    ensures
        content_bytes(a@) != content_bytes(b@),
{
    a.lemma_wf();
    b.lemma_wf();
    if content_bytes(a@) == content_bytes(b@) {
        lemma_content_bytes_apart(a@, b@);
    }
}

/// Question sets with the same content, in the same order, have the same
/// fingerprint.
pub proof fn lemma_fingerprint_stable(a: Questions, b: Questions)
    requires
        a.wf(),
        b.wf(),
        a@ == b@,
    ensures
        a.spec_cached_hash() == b.spec_cached_hash(),
{
    a.lemma_wf();
    b.lemma_wf();
}

} // verus!
