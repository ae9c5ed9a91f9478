//! The in-progress quiz state that the client holds: the fingerprint of the
//! question set it was started on, and the answers given so far.

pub use crate::bounds::UNANSWERED;
use crate::bounds::{gain, tally};
use crate::fingerprint::fingerprint_of;
use crate::schema::{Category, QuestionView, Questions, Score};
use crate::text::{alphabet_only, base64_bytes, base64_len, base64_text, bounded_chars};
use crate::text::{bounded, from_base64, to_base64};
use crate::text::{lemma_alphabet_is_ascii, lemma_base64_len_bound};
use crate::wire::{read_varint, used, varint};
use crate::wire::{lemma_pow256_values, lemma_read_varint_bounds, lemma_read_varint_extends};
use crate::wire::lemma_read_varint_round_trip;
use arrayvec::ArrayString;
use vstd::prelude::*;

verus! {

/// The most bytes that the binary form of a session may have.
pub const BINARY_CAPACITY: usize = 512;

#[verifier::external_type_specification]
#[verifier::external_body]
pub struct ExDecodeError(bincode::error::DecodeError);

#[verifier::external_type_specification]
#[verifier::external_body]
pub struct ExEncodeError(bincode::error::EncodeError);

/// The state of a quiz in progress.
#[derive(Clone, Debug)]
pub struct Session {
    /// The fingerprint of the question set that the quiz was started on.
    pub questions_hash: u64,
    /// The index of the choice picked for each question, in question order.
    pub answers: Vec<u8>,
}

/// What a session holds.
pub struct SessionView {
    pub questions_hash: u64,
    pub answers: Seq<u8>,
}

impl View for Session {
    type V = SessionView;

    open spec fn view(&self) -> SessionView {
        SessionView { questions_hash: self.questions_hash, answers: self.answers@ }
    }
}

/// Why no session could be had from a request.
#[derive(Clone, Copy, Debug, PartialEq, Eq, Structural)]
pub enum SessionError {
    /// No token was sent.
    Missing,
    /// The token is not base64 text, or stands for more bytes than a session may have.
    Base64,
    /// The bytes are not exactly one session record.
    Bincode,
}

/// A record does not fit the space that it is given.
#[derive(Clone, Copy, Debug, PartialEq, Eq, Structural)]
pub struct CapacityExceeded;

/// The binary form of a session: the fingerprint, the number of answers, the
/// answers one byte each.
pub open spec fn session_bytes(s: SessionView) -> Seq<u8> {
    varint(s.questions_hash as nat) + varint(s.answers.len()) + s.answers
}

/// What a reader of a session takes from the front of `b`: the session and
/// the number of bytes consumed.
pub open spec fn read_session(b: Seq<u8>) -> Option<(SessionView, nat)> {
    let hash = read_varint(b, 8);
    let count = read_varint(b.skip(used(hash) as int), 8);
    let start = used(hash) + used(count);
    if hash is None || count is None || b.len() < start + count->Some_0.0 {
        None
    } else {
        let end = start + count->Some_0.0;
        Some(
            (
                SessionView {
                    questions_hash: hash->Some_0.0 as u64,
                    answers: b.subrange(start as int, end as int),
                },
                end,
            ),
        )
    }
}

/// `bincode::encode_into_slice` with the standard configuration, on a
/// fingerprint and the answers: writes the binary form at the front of `dst`
/// and returns its length; fails where `dst` is too short for it.
#[verifier::external_body]
fn encode_session_into(questions_hash: u64, answers: &[u8], dst: &mut [u8]) -> (r: Result<
    usize,
    bincode::error::EncodeError,
>)
    ensures
        final(dst)@.len() == old(dst)@.len(),
        match r {
            Ok(n) => {
                let bytes = session_bytes(SessionView { questions_hash, answers: answers@ });
                n == bytes.len() && n <= old(dst)@.len() && final(dst)@.subrange(0, n as int)
                    == bytes
            },
            Err(_) => {
                let bytes = session_bytes(SessionView { questions_hash, answers: answers@ });
                bytes.len() > old(dst)@.len()
            },
        },
{
    bincode::encode_into_slice((questions_hash, answers), dst, bincode::config::standard())
}

/// `bincode::borrow_decode_from_slice` with the standard configuration, for a
/// fingerprint and a byte string: what `read_session` takes from the front of
/// `src`, and an error where it takes nothing.
#[verifier::external_body]
fn decode_session_from<'a>(src: &'a [u8]) -> (r: Result<
    ((u64, &'a [u8]), usize),
    bincode::error::DecodeError,
>)
    ensures
        match r {
            Ok(((questions_hash, answers), n)) => read_session(src@) == Some(
                (SessionView { questions_hash, answers: answers@ }, n as nat),
            ),
            Err(_) => read_session(src@) is None,
        },
{
    bincode::borrow_decode_from_slice(src, bincode::config::standard())
}

/// A reader takes back a session that was written, whatever follows it.
pub proof fn lemma_read_session_round_trip(s: SessionView, tail: Seq<u8>)
    requires
        s.answers.len() <= u64::MAX,
    ensures
        read_session(session_bytes(s) + tail) == Some((s, session_bytes(s).len())),
{
    lemma_pow256_values();
    let h = varint(s.questions_hash as nat);
    let c = varint(s.answers.len());
    let b = session_bytes(s) + tail;
    assert(b =~= h + (c + s.answers + tail));
    lemma_read_varint_round_trip(s.questions_hash as nat, 8, c + s.answers + tail);
    assert(b.skip(h.len() as int) =~= c + (s.answers + tail));
    lemma_read_varint_round_trip(s.answers.len(), 8, s.answers + tail);
    let start = h.len() + c.len();
    assert(b.subrange(start as int, (start + s.answers.len()) as int) =~= s.answers);
}

/// What a reader takes does not depend on what follows it.
pub proof fn lemma_read_session_extends(b: Seq<u8>, tail: Seq<u8>)
    requires
        read_session(b) is Some,
    ensures
        read_session(b + tail) == read_session(b),
{
    let hash = read_varint(b, 8);
    lemma_read_varint_extends(b, 8, tail);
    lemma_read_varint_bounds(b, 8);
    let rest = b.skip(used(hash) as int);
    assert((b + tail).skip(used(hash) as int) =~= rest + tail);
    lemma_read_varint_extends(rest, 8, tail);
    lemma_read_varint_bounds(rest, 8);
    let count = read_varint(rest, 8);
    let start = used(hash) + used(count);
    let end = start + count->Some_0.0;
    assert((b + tail).subrange(start as int, end as int) =~= b.subrange(start as int, end as int));
}

/// The answers after the choice `value` is registered for the question
/// `idx`: set in place where the question has an answer, appended where it
/// is the next one, and appended behind markers for the questions passed over
/// where it lies further on.
pub open spec fn registered(answers: Seq<u8>, idx: int, value: u8) -> Seq<u8> {
    if idx < answers.len() {
        answers.update(idx, value)
    } else {
        answers + Seq::new((idx - answers.len()) as nat, |i: int| UNANSWERED).push(value)
    }
}

impl Session {
    /// The session of a quiz that starts on `questions`: no answers yet.
    pub fn new(questions: &Questions) -> (s: Session)
        ensures
            s.questions_hash == questions.spec_cached_hash(),
            s.questions_hash == fingerprint_of(questions@),
            s.answers@ == Seq::<u8>::empty(),
    {
        Session { questions_hash: questions.cached_hash(), answers: Vec::new() }
    }

    /// Registers the choice `value` for the question `idx`.
    pub fn register_answer(&mut self, idx: usize, value: u8)
        requires
            idx < usize::MAX,
        ensures
            final(self).questions_hash == old(self).questions_hash,
            final(self).answers@ == registered(old(self).answers@, idx as int, value),
    {
        let ghost before = self.answers@;
        if idx < self.answers.len() {
            self.answers[idx] = value;
        } else if idx == self.answers.len() {
            self.answers.push(value);
            assert(self.answers@ =~= registered(before, idx as int, value));
        } else {
            self.answers.resize(idx + 1, UNANSWERED);
            self.answers[idx] = value;
            assert(self.answers@ =~= registered(before, idx as int, value));
        }
    }

    /// The score of the answers, where there is one answer for each question
    /// and the session was started on these questions: in each category the
    /// sum of what each answer adds. A question that was passed over, and an
    /// answer that names no choice, add nothing.
    pub fn score(&self, questions: &Questions) -> (r: Option<Score>)
        ensures
            r is Some <==> self.answers@.len() == questions@.len() && self.questions_hash
                == questions.spec_cached_hash(),
            r is Some ==> forall|cat: Category| #[trigger]
                r->Some_0.at(cat) == tally(questions@, self.answers@, cat),
    {
        if self.questions_hash != questions.cached_hash() {
            None
        } else {
            questions.score(self.answers.as_slice())
        }
    }

    /// The session that a request carries in its cookie, if it carries one.
    pub fn from_request(cookie: Option<&str>) -> (r: Result<Session, SessionError>)
        ensures
            match r {
                Ok(s) => cookie is Some && Self::decoding(cookie->Some_0@) == Ok::<
                    SessionView,
                    SessionError,
                >(s@),
                Err(e) => match cookie {
                    Some(text) => Self::decoding(text@) == Err::<SessionView, SessionError>(e),
                    None => e == SessionError::Missing,
                },
            },
    {
        match cookie {
            Some(text) => Self::decode(text),
            None => Err(SessionError::Missing),
        }
    }

    /// The session that `bytes` are the binary form of: exactly one record,
    /// with nothing after it.
    pub open spec fn parsing(bytes: Seq<u8>) -> Result<SessionView, SessionError> {
        match read_session(bytes) {
            Some((s, n)) => if n == bytes.len() {
                Ok(s)
            } else {
                Err(SessionError::Bincode)
            },
            None => Err(SessionError::Bincode),
        }
    }

    /// The session that a token stands for.
    pub open spec fn decoding(text: Seq<char>) -> Result<SessionView, SessionError> {
        match base64_bytes(text) {
            Some(bytes) => if bytes.len() <= BINARY_CAPACITY {
                Self::parsing(bytes)
            } else {
                Err(SessionError::Base64)
            },
            None => Err(SessionError::Base64),
        }
    }

    /// The binary form, where it has at most `BINARY_CAPACITY` bytes.
    pub fn to_bytes(&self) -> (r: Result<Vec<u8>, CapacityExceeded>)
        ensures
            match r {
                Ok(bytes) => bytes@ == session_bytes(self@) && bytes@.len() <= BINARY_CAPACITY,
                Err(_) => session_bytes(self@).len() > BINARY_CAPACITY,
            },
    {
        let mut buf: Vec<u8> = vec![0u8; BINARY_CAPACITY];
        match encode_session_into(self.questions_hash, self.answers.as_slice(), buf.as_mut_slice()) {
            Ok(n) => {
                buf.truncate(n);
                Ok(buf)
            },
            Err(_) => Err(CapacityExceeded),
        }
    }

    /// The session that `bytes` are the binary form of.
    pub fn from_bytes(bytes: &[u8]) -> (r: Result<Session, SessionError>)
        ensures
            match r {
                Ok(s) => Self::parsing(bytes@) == Ok::<SessionView, SessionError>(s@),
                Err(e) => Self::parsing(bytes@) == Err::<SessionView, SessionError>(e),
            },
    {
        match decode_session_from(bytes) {
            Ok(((questions_hash, answers), read)) => {
                if read == bytes.len() {
                    Ok(Session { questions_hash, answers: vstd::slice::slice_to_vec(answers) })
                } else {
                    Err(SessionError::Bincode)
                }
            },
            Err(_) => Err(SessionError::Bincode),
        }
    }

    /// The token for this session: the base64 text of its binary form, in
    /// the URL-safe alphabet and without padding. Fails where the binary form
    /// has more than `BINARY_CAPACITY` bytes. The token decodes to this
    /// session again.
    pub fn encode(&self) -> (r: Result<ArrayString<1024>, CapacityExceeded>)
        ensures
            match r {
                Ok(token) => {
                    &&& session_bytes(self@).len() <= BINARY_CAPACITY
                    &&& bounded_chars(token) == base64_text(session_bytes(self@))
                    &&& bounded_chars(token).len() == base64_len(session_bytes(self@).len())
                    &&& alphabet_only(bounded_chars(token))
                    &&& Self::decoding(bounded_chars(token)) == Ok::<SessionView, SessionError>(
                        self@,
                    )
                },
                Err(_) => session_bytes(self@).len() > BINARY_CAPACITY,
            },
    {
        match self.to_bytes() {
            Ok(bytes) => {
                let text = to_base64(bytes.as_slice());
                proof {
                    lemma_base64_len_bound(bytes@.len());
                    lemma_alphabet_is_ascii(text@);
                    lemma_read_session_round_trip(self@, Seq::empty());
                    assert(session_bytes(self@) + Seq::<u8>::empty() =~= session_bytes(self@));
                }
                match bounded(text.as_str()) {
                    Ok(token) => Ok(token),
                    Err(_) => Err(CapacityExceeded),
                }
            },
            Err(e) => Err(e),
        }
    }

    /// The session that a token stands for. A token with a character
    /// outside the URL-safe alphabet stands for none.
    pub fn decode(base64: &str) -> (r: Result<Session, SessionError>)
        ensures
            match r {
                Ok(s) => Self::decoding(base64@) == Ok::<SessionView, SessionError>(s@),
                Err(e) => Self::decoding(base64@) == Err::<SessionView, SessionError>(e),
            },
            !alphabet_only(base64@) ==> r == Err::<Session, SessionError>(SessionError::Base64),
    {
        match from_base64(base64) {
            Ok(bytes) => {
                if bytes.len() <= BINARY_CAPACITY {
                    Self::from_bytes(bytes.as_slice())
                } else {
                    Err(SessionError::Base64)
                }
            },
            Err(_) => Err(SessionError::Base64),
        }
    }
}

/// The binary form of a session parses to the session.
pub proof fn lemma_session_parsing_round_trip(s: SessionView)
    requires
        s.answers.len() <= u64::MAX,
    ensures
        Session::parsing(session_bytes(s)) == Ok::<SessionView, SessionError>(s),
{
    lemma_read_session_round_trip(s, Seq::empty());
    assert(session_bytes(s) + Seq::<u8>::empty() =~= session_bytes(s));
}

/// Bytes that parse to a session parse to none once bytes are added or taken
/// away at the end.
pub proof fn lemma_session_framing(bytes: Seq<u8>, other: Seq<u8>)
    requires
        Session::parsing(bytes) is Ok,
        other.len() != bytes.len(),
        other.len() <= bytes.len() ==> other == bytes.subrange(0, other.len() as int),
        other.len() >= bytes.len() ==> bytes == other.subrange(0, bytes.len() as int),
    ensures
        Session::parsing(other) == Err::<SessionView, SessionError>(SessionError::Bincode),
{
    if other.len() > bytes.len() {
        let tail = other.subrange(bytes.len() as int, other.len() as int);
        assert(other =~= bytes + tail);
        lemma_read_session_extends(bytes, tail);
    } else if Session::parsing(other) is Ok {
        let tail = bytes.subrange(other.len() as int, bytes.len() as int);
        assert(bytes =~= other + tail);
        lemma_read_session_extends(other, tail);
    }
}

/// A question that was passed over adds nothing to the score.
pub proof fn lemma_unanswered_adds_nothing(q: QuestionView, cat: Category)
    ensures
        gain(q, UNANSWERED, cat) == 0,
{
}

/// Registering an answer further on in a session without answers leaves a
/// marker for each question before it, and the answer behind them.
pub proof fn lemma_registered_ahead(idx: nat, value: u8)
    ensures
        registered(Seq::empty(), idx as int, value).len() == idx + 1,
        registered(Seq::empty(), idx as int, value)[idx as int] == value,
        forall|i: int| 0 <= i < idx ==> #[trigger] registered(Seq::empty(), idx as int, value)[i]
            == UNANSWERED,
{
}

/// Where the quiz goes on after an answer.
#[derive(Clone, Copy, Debug, PartialEq, Eq, Structural)]
pub enum NextPage {
    /// The question with this index.
    Question(usize),
    /// The score: the last question was answered.
    Score,
}

/// Registers the choice `id_rep` for the question `id_question`, kept to one
/// byte, and says where a quiz of `question_count` questions goes on.
pub fn register_answer(
    session: &mut Session,
    id_question: usize,
    id_rep: usize,
    question_count: usize,
) -> (next: NextPage)
    requires
        id_question < usize::MAX,
    ensures
        final(session).questions_hash == old(session).questions_hash,
        final(session).answers@ == registered(
            old(session).answers@,
            id_question as int,
            (id_rep % 256) as u8,
        ),
        next == if id_question + 1 >= question_count {
            NextPage::Score
        } else {
            NextPage::Question((id_question + 1) as usize)
        },
{
    session.register_answer(id_question, (id_rep % 256) as u8);
    if id_question + 1 >= question_count {
        NextPage::Score
    } else {
        NextPage::Question(id_question + 1)
    }
}

} // verus!
