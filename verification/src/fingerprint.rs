//! The fingerprint of a question set: a hash over bytes that spell out its
//! whole content, in order.

use crate::schema::{question_views, Choice, ChoiceView, Question, QuestionView, Score};
use crate::wire::{le_bytes, pow256};
use crate::wire::{lemma_le_bytes_len, lemma_le_round_trip, lemma_pow256_values};
use std::collections::hash_map::DefaultHasher;
use std::hash::Hasher;
use vstd::prelude::*;
use vstd::std_specs::hash::DefaultHasherAdditionalSpecFns;
use vstd::utf8::encode_utf8;

verus! {

/// The bytes of a byte string with its length before it.
pub open spec fn framed(b: Seq<u8>) -> Seq<u8> {
    le_bytes(b.len(), 8) + b
}

/// Four bytes for each value of a score, in the order of the categories.
pub open spec fn score_bytes(s: Score) -> Seq<u8> {
    le_bytes((s.trashness + 0x8000_0000) as nat, 4) + le_bytes((s.sex + 0x8000_0000) as nat, 4)
        + le_bytes((s.alcohol + 0x8000_0000) as nat, 4) + le_bytes(
        (s.drugs + 0x8000_0000) as nat,
        4,
    )
}

/// The bytes of a choice: its text, then its score.
pub open spec fn choice_bytes(c: ChoiceView) -> Seq<u8> {
    framed(encode_utf8(c.text)) + score_bytes(c.score)
}

/// The bytes of the first `n` choices, one after the other.
pub open spec fn choices_bytes(choices: Seq<ChoiceView>, n: nat) -> Seq<u8>
    decreases n,
{
    if n == 0 {
        Seq::empty()
    } else {
        choices_bytes(choices, (n - 1) as nat) + choice_bytes(choices[n - 1])
    }
}

/// The bytes of a question: its text, its id, the number of its choices, then
/// the choices.
pub open spec fn question_bytes(q: QuestionView) -> Seq<u8> {
    framed(encode_utf8(q.question)) + le_bytes(q.id as nat, 4) + le_bytes(q.choices.len(), 8)
        + choices_bytes(q.choices, q.choices.len())
}

/// The bytes of the first `n` questions, one after the other.
pub open spec fn questions_bytes(qs: Seq<QuestionView>, n: nat) -> Seq<u8>
    decreases n,
{
    if n == 0 {
        Seq::empty()
    } else {
        questions_bytes(qs, (n - 1) as nat) + question_bytes(qs[n - 1])
    }
}

/// The bytes that stand for the whole content of a question set, in order.
pub open spec fn content_bytes(qs: Seq<QuestionView>) -> Seq<u8> {
    le_bytes(qs.len(), 8) + questions_bytes(qs, qs.len())
}

/// The fingerprint of a question set: the hash of its content bytes, fed to
/// a fresh hasher in one piece.
pub open spec fn fingerprint_of(qs: Seq<QuestionView>) -> u64 {
    DefaultHasher::spec_finish(seq![content_bytes(qs)])
}

/// The lengths in a question fit eight bytes.
pub open spec fn storable_question(q: QuestionView) -> bool {
    &&& encode_utf8(q.question).len() <= u64::MAX
    &&& q.choices.len() <= u64::MAX
    &&& forall|j: int|
        0 <= j < q.choices.len() ==> encode_utf8((#[trigger] q.choices[j]).text).len() <= u64::MAX
}

/// Every length in the content fits eight bytes, as the lengths of what is
/// held in memory do.
pub open spec fn storable(qs: Seq<QuestionView>) -> bool {
    &&& qs.len() <= u64::MAX
    &&& forall|i: int| 0 <= i < qs.len() ==> storable_question(#[trigger] qs[i])
}

/// Appends the `n` low bytes of `v`, least significant first.
fn push_le(buf: &mut Vec<u8>, v: u64, n: usize)
    ensures
        final(buf)@ == old(buf)@ + le_bytes(v as nat, n as nat),
{
    let ghost start = buf@;
    let mut rest: u64 = v;
    let mut k: usize = 0;
    assert(buf@ + le_bytes(rest as nat, (n - k) as nat) =~= start + le_bytes(v as nat, n as nat));
    while k < n
        invariant
            k <= n,
            buf@ + le_bytes(rest as nat, (n - k) as nat) == start + le_bytes(v as nat, n as nat),
        decreases n - k,
    {
        let ghost before = buf@;
        buf.push((rest % 256) as u8);
        assert(buf@ + le_bytes((rest / 256) as nat, (n - k - 1) as nat) =~= before + le_bytes(
            rest as nat,
            (n - k) as nat,
        ));
        rest = rest / 256;
        k += 1;
    }
    assert(buf@ + le_bytes(rest as nat, 0) =~= buf@);
}

/// Appends a byte string with its length before it.
fn push_framed(buf: &mut Vec<u8>, bytes: &[u8])
    ensures
        final(buf)@ == old(buf)@ + framed(bytes@),
        bytes@.len() <= u64::MAX,
{
    let ghost start = buf@;
    push_le(buf, bytes.len() as u64, 8);
    buf.extend_from_slice(bytes);
    assert(buf@ =~= start + framed(bytes@));
}

/// Appends the bytes of a score.
fn push_score(buf: &mut Vec<u8>, score: Score)
    ensures
        final(buf)@ == old(buf)@ + score_bytes(score),
{
    let ghost start = buf@;
    push_le(buf, (score.trashness as i64 + 0x8000_0000) as u64, 4);
    push_le(buf, (score.sex as i64 + 0x8000_0000) as u64, 4);
    push_le(buf, (score.alcohol as i64 + 0x8000_0000) as u64, 4);
    push_le(buf, (score.drugs as i64 + 0x8000_0000) as u64, 4);
    assert(buf@ =~= start + score_bytes(score));
}

/// Appends the bytes of a question.
fn push_question(buf: &mut Vec<u8>, q: &Question)
    ensures
        final(buf)@ == old(buf)@ + question_bytes(q@),
        storable_question(q@),
{
    let ghost start = buf@;
    let choices = q.choices_vec();
    push_framed(buf, q.question.as_str().as_bytes());
    push_le(buf, q.id as u64, 4);
    push_le(buf, choices.len() as u64, 8);
    let ghost head = buf@;
    let mut i: usize = 0;
    while i < choices.len()
        invariant
            i <= choices.len(),
            choices@.map_values(|c: Choice| c@) == q@.choices,
            buf@ == head + choices_bytes(q@.choices, i as nat),
            forall|j: int|
                0 <= j < i ==> encode_utf8((#[trigger] q@.choices[j]).text).len() <= u64::MAX,
        decreases choices.len() - i,
    {
        let ghost before = buf@;
        let choice = &choices[i];
        assert(choices@.map_values(|c: Choice| c@)[i as int] == choices@[i as int]@);
        push_framed(buf, choice.text.as_str().as_bytes());
        push_score(buf, choice.score);
        assert(buf@ =~= head + choices_bytes(q@.choices, (i + 1) as nat));
        i += 1;
    }
    assert(buf@ =~= start + question_bytes(q@));
}

/// The fingerprint of the questions.
pub(crate) fn fingerprint(questions: &Vec<Question>) -> (h: u64)
    ensures
        h == fingerprint_of(question_views(questions@)),
        storable(question_views(questions@)),
{
    let ghost qs = question_views(questions@);
    let mut buf: Vec<u8> = Vec::new();
    push_le(&mut buf, questions.len() as u64, 8);
    let ghost head = buf@;
    let mut i: usize = 0;
    while i < questions.len()
        invariant
            i <= questions.len(),
            qs == question_views(questions@),
            buf@ == head + questions_bytes(qs, i as nat),
            forall|j: int| 0 <= j < i ==> storable_question(#[trigger] qs[j]),
        decreases questions.len() - i,
    {
        push_question(&mut buf, &questions[i]);
        assert(buf@ =~= head + questions_bytes(qs, (i + 1) as nat));
        i += 1;
    }
    assert(buf@ =~= content_bytes(qs));
    let mut hasher = DefaultHasher::new();
    hasher.write(buf.as_slice());
    assert(hasher@ =~= seq![content_bytes(qs)]);
    hasher.finish()
}

/// Byte strings of one length that begin two equal byte strings are equal,
/// and so is what follows them.
proof fn lemma_split(a1: Seq<u8>, r1: Seq<u8>, a2: Seq<u8>, r2: Seq<u8>)
    requires
        a1.len() == a2.len(),
        a1 + r1 == a2 + r2,
    ensures
        a1 == a2,
        r1 == r2,
{
    let n = a1.len() as int;
    assert((a1 + r1).subrange(0, n) =~= a1);
    assert((a2 + r2).subrange(0, n) =~= a2);
    assert((a1 + r1).skip(n) =~= r1);
    assert((a2 + r2).skip(n) =~= r2);
}

/// Numbers whose `n` low bytes begin two equal byte strings are equal, and so
/// is what follows the bytes.
proof fn lemma_le_apart(v: nat, r1: Seq<u8>, w: nat, r2: Seq<u8>, n: nat)
    requires
        v < pow256(n),
        w < pow256(n),
        le_bytes(v, n) + r1 == le_bytes(w, n) + r2,
    ensures
        v == w,
        r1 == r2,
{
    lemma_le_bytes_len(v, n);
    lemma_le_bytes_len(w, n);
    lemma_split(le_bytes(v, n), r1, le_bytes(w, n), r2);
    lemma_le_round_trip(v, n);
    lemma_le_round_trip(w, n);
}

/// Byte strings that, with their lengths before them, begin two equal byte
/// strings are equal, and so is what follows them.
proof fn lemma_framed_apart(b1: Seq<u8>, r1: Seq<u8>, b2: Seq<u8>, r2: Seq<u8>)
    requires
        b1.len() <= u64::MAX,
        b2.len() <= u64::MAX,
        framed(b1) + r1 == framed(b2) + r2,
    ensures
        b1 == b2,
        r1 == r2,
{
    lemma_pow256_values();
    assert(framed(b1) + r1 =~= le_bytes(b1.len(), 8) + (b1 + r1));
    assert(framed(b2) + r2 =~= le_bytes(b2.len(), 8) + (b2 + r2));
    lemma_le_apart(b1.len(), b1 + r1, b2.len(), b2 + r2, 8);
    lemma_split(b1, r1, b2, r2);
}

/// Texts with the same UTF-8 form are the same.
proof fn lemma_text_apart(t1: Seq<char>, t2: Seq<char>)
    requires
        encode_utf8(t1) == encode_utf8(t2),
    ensures
        t1 == t2,
{
    vstd::utf8::encode_utf8_decode_utf8(t1);
    vstd::utf8::encode_utf8_decode_utf8(t2);
}

/// Scores whose bytes begin two equal byte strings are equal, and so is what
/// follows the bytes.
proof fn lemma_score_apart(s1: Score, r1: Seq<u8>, s2: Score, r2: Seq<u8>)
    requires
        score_bytes(s1) + r1 == score_bytes(s2) + r2,
    ensures
        s1 == s2,
        r1 == r2,
{
    lemma_pow256_values();
    let t1 = le_bytes((s1.trashness + 0x8000_0000) as nat, 4);
    let x1 = le_bytes((s1.sex + 0x8000_0000) as nat, 4);
    let a1 = le_bytes((s1.alcohol + 0x8000_0000) as nat, 4);
    let d1 = le_bytes((s1.drugs + 0x8000_0000) as nat, 4);
    let t2 = le_bytes((s2.trashness + 0x8000_0000) as nat, 4);
    let x2 = le_bytes((s2.sex + 0x8000_0000) as nat, 4);
    let a2 = le_bytes((s2.alcohol + 0x8000_0000) as nat, 4);
    let d2 = le_bytes((s2.drugs + 0x8000_0000) as nat, 4);
    assert(score_bytes(s1) + r1 =~= t1 + (x1 + (a1 + (d1 + r1))));
    assert(score_bytes(s2) + r2 =~= t2 + (x2 + (a2 + (d2 + r2))));
    lemma_le_apart(
        (s1.trashness + 0x8000_0000) as nat,
        x1 + (a1 + (d1 + r1)),
        (s2.trashness + 0x8000_0000) as nat,
        x2 + (a2 + (d2 + r2)),
        4,
    );
    lemma_le_apart(
        (s1.sex + 0x8000_0000) as nat,
        a1 + (d1 + r1),
        (s2.sex + 0x8000_0000) as nat,
        a2 + (d2 + r2),
        4,
    );
    lemma_le_apart(
        (s1.alcohol + 0x8000_0000) as nat,
        d1 + r1,
        (s2.alcohol + 0x8000_0000) as nat,
        d2 + r2,
        4,
    );
    lemma_le_apart(
        (s1.drugs + 0x8000_0000) as nat,
        r1,
        (s2.drugs + 0x8000_0000) as nat,
        r2,
        4,
    );
}

/// Choices whose bytes begin two equal byte strings are equal, and so is what
/// follows the bytes.
proof fn lemma_choice_apart(c1: ChoiceView, r1: Seq<u8>, c2: ChoiceView, r2: Seq<u8>)
    requires
        encode_utf8(c1.text).len() <= u64::MAX,
        encode_utf8(c2.text).len() <= u64::MAX,
        choice_bytes(c1) + r1 == choice_bytes(c2) + r2,
    ensures
        c1 == c2,
        r1 == r2,
{
    assert(choice_bytes(c1) + r1 =~= framed(encode_utf8(c1.text)) + (score_bytes(c1.score) + r1));
    assert(choice_bytes(c2) + r2 =~= framed(encode_utf8(c2.text)) + (score_bytes(c2.score) + r2));
    lemma_framed_apart(
        encode_utf8(c1.text),
        score_bytes(c1.score) + r1,
        encode_utf8(c2.text),
        score_bytes(c2.score) + r2,
    );
    lemma_text_apart(c1.text, c2.text);
    lemma_score_apart(c1.score, r1, c2.score, r2);
}

/// Where the bytes of the first `n` choices of two lists begin two equal
/// byte strings, those choices are equal one by one, and so is what follows
/// the bytes.
proof fn lemma_choices_apart(
    cs1: Seq<ChoiceView>,
    r1: Seq<u8>,
    cs2: Seq<ChoiceView>,
    r2: Seq<u8>,
    n: nat,
)
    requires
        n <= cs1.len(),
        n <= cs2.len(),
        forall|j: int| 0 <= j < n ==> encode_utf8((#[trigger] cs1[j]).text).len() <= u64::MAX,
        forall|j: int| 0 <= j < n ==> encode_utf8((#[trigger] cs2[j]).text).len() <= u64::MAX,
        choices_bytes(cs1, n) + r1 == choices_bytes(cs2, n) + r2,
    ensures
        forall|j: int| 0 <= j < n ==> cs1[j] == cs2[j],
        r1 == r2,
    decreases n,
{
    if n > 0 {
        let m = (n - 1) as nat;
        let l1 = choice_bytes(cs1[n - 1]);
        let l2 = choice_bytes(cs2[n - 1]);
        assert(choices_bytes(cs1, n) + r1 =~= choices_bytes(cs1, m) + (l1 + r1));
        assert(choices_bytes(cs2, n) + r2 =~= choices_bytes(cs2, m) + (l2 + r2));
        lemma_choices_apart(cs1, l1 + r1, cs2, l2 + r2, m);
        lemma_choice_apart(cs1[n - 1], r1, cs2[n - 1], r2);
    } else {
        assert(choices_bytes(cs1, n) + r1 =~= r1);
        assert(choices_bytes(cs2, n) + r2 =~= r2);
    }
}

/// Questions whose bytes begin two equal byte strings are equal, and so is
/// what follows the bytes.
proof fn lemma_question_apart(q1: QuestionView, r1: Seq<u8>, q2: QuestionView, r2: Seq<u8>)
    requires
        storable_question(q1),
        storable_question(q2),
        question_bytes(q1) + r1 == question_bytes(q2) + r2,
    ensures
        q1 == q2,
        r1 == r2,
{
    lemma_pow256_values();
    let n1 = q1.choices.len();
    let n2 = q2.choices.len();
    let c1 = choices_bytes(q1.choices, n1) + r1;
    let c2 = choices_bytes(q2.choices, n2) + r2;
    let k1 = le_bytes(n1, 8) + c1;
    let k2 = le_bytes(n2, 8) + c2;
    let i1 = le_bytes(q1.id as nat, 4) + k1;
    let i2 = le_bytes(q2.id as nat, 4) + k2;
    assert(question_bytes(q1) + r1 =~= framed(encode_utf8(q1.question)) + i1);
    assert(question_bytes(q2) + r2 =~= framed(encode_utf8(q2.question)) + i2);
    lemma_framed_apart(encode_utf8(q1.question), i1, encode_utf8(q2.question), i2);
    lemma_text_apart(q1.question, q2.question);
    lemma_le_apart(q1.id as nat, k1, q2.id as nat, k2, 4);
    lemma_le_apart(n1, c1, n2, c2, 8);
    lemma_choices_apart(q1.choices, r1, q2.choices, r2, n1);
    assert(q1.choices =~= q2.choices);
}

/// Where the bytes of the first `n` questions of two lists begin two equal
/// byte strings, those questions are equal one by one, and so is what
/// follows the bytes.
proof fn lemma_questions_apart(
    a: Seq<QuestionView>,
    r1: Seq<u8>,
    b: Seq<QuestionView>,
    r2: Seq<u8>,
    n: nat,
)
    requires
        n <= a.len(),
        n <= b.len(),
        forall|i: int| 0 <= i < n ==> storable_question(#[trigger] a[i]),
        forall|i: int| 0 <= i < n ==> storable_question(#[trigger] b[i]),
        questions_bytes(a, n) + r1 == questions_bytes(b, n) + r2,
    ensures
        forall|i: int| 0 <= i < n ==> a[i] == b[i],
        r1 == r2,
    decreases n,
{
    if n > 0 {
        let m = (n - 1) as nat;
        let l1 = question_bytes(a[n - 1]);
        let l2 = question_bytes(b[n - 1]);
        assert(questions_bytes(a, n) + r1 =~= questions_bytes(a, m) + (l1 + r1));
        assert(questions_bytes(b, n) + r2 =~= questions_bytes(b, m) + (l2 + r2));
        lemma_questions_apart(a, l1 + r1, b, l2 + r2, m);
        lemma_question_apart(a[n - 1], r1, b[n - 1], r2);
    } else {
        assert(questions_bytes(a, n) + r1 =~= r1);
        assert(questions_bytes(b, n) + r2 =~= r2);
    }
}

/// No two contents have the same bytes: whatever changes in a question set
/// (a text, an id, a score, the order, the number of questions or of choices)
/// changes what is hashed.
pub proof fn lemma_content_bytes_apart(a: Seq<QuestionView>, b: Seq<QuestionView>)
    requires
        storable(a),
        storable(b),
        content_bytes(a) == content_bytes(b),
    ensures
        a == b,
{
    lemma_pow256_values();
    lemma_le_apart(a.len(), questions_bytes(a, a.len()), b.len(), questions_bytes(b, b.len()), 8);
    let empty = Seq::<u8>::empty();
    assert(questions_bytes(a, a.len()) + empty =~= questions_bytes(a, a.len()));
    assert(questions_bytes(b, b.len()) + empty =~= questions_bytes(b, b.len()));
    lemma_questions_apart(a, empty, b, empty, a.len());
    assert(a =~= b);
}

/// Two question sets that differ in the score of a single choice differ in
/// what is hashed.
pub proof fn lemma_score_changes_content(
    a: Seq<QuestionView>,
    b: Seq<QuestionView>,
    question: int,
    choice: int,
)
    requires
        storable(a),
        storable(b),
        0 <= question < a.len(),
        0 <= question < b.len(),
        0 <= choice < a[question].choices.len(),
        0 <= choice < b[question].choices.len(),
        a[question].choices[choice].score != b[question].choices[choice].score,
    ensures
        content_bytes(a) != content_bytes(b),
{
    if content_bytes(a) == content_bytes(b) {
        lemma_content_bytes_apart(a, b);
    }
}

} // verus!
