use base64::prelude::BASE64_URL_SAFE_NO_PAD;
use base64::Engine;
use quiz_state::schema::{Choice, Question, Questions, Score};
use quiz_state::session::{register_answer, CapacityExceeded, NextPage, Session, SessionError};
use quiz_state::session::{BINARY_CAPACITY, UNANSWERED};
use vec1::Vec1;

fn score(trashness: i32, sex: i32, alcohol: i32, drugs: i32) -> Score {
    Score { trashness, sex, alcohol, drugs }
}

fn question(id: u32, scores: Vec<Score>) -> Question {
    let choices = scores
        .into_iter()
        .map(|score| Choice { text: "choice".to_string(), score })
        .collect::<Vec<Choice>>();
    Question { question: "question".to_string(), choices: Vec1::try_from_vec(choices).unwrap(), id }
}

fn four_questions() -> Questions {
    Questions::build(vec![
        question(0, vec![score(1, 0, 0, 0), score(2, 0, 0, 0)]),
        question(1, vec![score(0, 10, 0, 0), score(0, 20, 0, 0)]),
        question(2, vec![score(0, 0, 100, 0), score(0, 0, 200, 0)]),
        question(3, vec![score(0, 0, 0, -7), score(5, 5, 5, 5), score(0, 0, 0, 1000)]),
    ])
    .unwrap()
}

fn session(questions_hash: u64, answers: Vec<u8>) -> Session {
    Session { questions_hash, answers }
}

fn decoded(text: &str) -> (u64, Vec<u8>) {
    let s = Session::decode(text).unwrap();
    (s.questions_hash, s.answers)
}

#[test]
fn new_session_has_the_fingerprint_and_no_answers() {
    let questions = four_questions();
    let s = Session::new(&questions);
    assert_eq!(s.questions_hash, questions.cached_hash());
    assert!(s.answers.is_empty());
}

#[test]
fn register_answer_appends_the_next_answer() {
    let mut s = session(9, vec![1]);
    s.register_answer(1, 4);
    assert_eq!(s.answers, vec![1, 4]);
    assert_eq!(s.questions_hash, 9);
}

#[test]
fn register_answer_overwrites_an_earlier_answer() {
    let mut s = session(9, vec![1, 2, 3]);
    s.register_answer(0, 7);
    assert_eq!(s.answers, vec![7, 2, 3]);
    s.register_answer(2, 0);
    assert_eq!(s.answers, vec![7, 2, 0]);
}

#[test]
fn register_answer_ahead_pads_with_the_marker() {
    let mut s = session(9, Vec::new());
    s.register_answer(3, 1);
    assert_eq!(s.answers, vec![UNANSWERED, UNANSWERED, UNANSWERED, 1]);
    assert_eq!(UNANSWERED, 255);
}

#[test]
fn register_answer_ahead_keeps_what_was_answered() {
    let mut s = session(9, vec![0, 1]);
    s.register_answer(4, 2);
    assert_eq!(s.answers, vec![0, 1, 255, 255, 2]);
}

#[test]
fn score_after_registering_ahead_counts_padded_slots_as_zero() {
    let questions = four_questions();
    let mut s = Session::new(&questions);
    s.register_answer(3, 2);
    assert_eq!(s.score(&questions), Some(score(0, 0, 0, 1000)));
}

#[test]
fn a_padded_slot_adds_nothing_whatever_the_number_of_choices() {
    let most = (1..=255).map(|i| score(i, i, i, i)).collect::<Vec<Score>>();
    let questions = Questions::build(vec![
        question(0, most.clone()),
        question(1, most),
        question(2, vec![score(7, 0, 0, 0)]),
    ])
    .unwrap();
    let mut s = Session::new(&questions);
    s.register_answer(2, 0);
    assert_eq!(s.answers, vec![255, 255, 0]);
    assert_eq!(s.score(&questions), Some(score(7, 0, 0, 0)));
    s.register_answer(1, 254);
    assert_eq!(s.score(&questions), Some(score(262, 255, 255, 255)));
}

#[test]
fn score_is_missing_while_answers_are_missing() {
    let questions = four_questions();
    let mut s = Session::new(&questions);
    s.register_answer(2, 0);
    assert_eq!(s.answers, vec![255, 255, 0]);
    assert_eq!(s.score(&questions), None);
    assert_eq!(Session::new(&questions).score(&questions), None);
}

#[test]
fn score_is_missing_with_too_many_answers() {
    let questions = four_questions();
    let s = session(questions.cached_hash(), vec![0, 0, 0, 0, 0]);
    assert_eq!(s.score(&questions), None);
}

#[test]
fn score_is_missing_for_another_fingerprint() {
    let questions = four_questions();
    let s = session(questions.cached_hash().wrapping_add(1), vec![0, 0, 0, 0]);
    assert_eq!(s.score(&questions), None);
}

#[test]
fn score_sums_the_chosen_choices() {
    let questions = four_questions();
    let s = session(questions.cached_hash(), vec![1, 0, 1, 1]);
    assert_eq!(s.score(&questions), Some(score(7, 15, 205, 5)));
    let s = session(questions.cached_hash(), vec![0, 1, 0, 0]);
    assert_eq!(s.score(&questions), Some(score(1, 20, 100, -7)));
}

#[test]
fn score_does_not_depend_on_the_order_of_registration() {
    let questions = four_questions();
    let mut forward = Session::new(&questions);
    for (idx, value) in [(0, 1), (1, 1), (2, 0), (3, 2)] {
        forward.register_answer(idx, value);
    }
    let mut backward = Session::new(&questions);
    for (idx, value) in [(3, 2), (2, 0), (1, 1), (0, 1)] {
        backward.register_answer(idx, value);
    }
    assert_eq!(forward.answers, backward.answers);
    assert_eq!(forward.score(&questions), Some(score(2, 20, 100, 1000)));
    assert_eq!(backward.score(&questions), forward.score(&questions));
}

#[test]
fn score_skips_an_answer_that_names_no_choice() {
    let questions = four_questions();
    let s = session(questions.cached_hash(), vec![2, 1, 9, 3]);
    assert_eq!(s.score(&questions), Some(score(0, 20, 0, 0)));
}

#[test]
fn score_of_no_questions_is_zero() {
    let questions = Questions::build(Vec::new()).unwrap();
    assert_eq!(Session::new(&questions).score(&questions), Some(Score::default()));
}

#[test]
fn to_bytes_writes_small_values_in_one_byte() {
    assert_eq!(session(1, vec![0, 2]).to_bytes().unwrap(), vec![1, 2, 0, 2]);
    assert_eq!(session(250, Vec::new()).to_bytes().unwrap(), vec![250, 0]);
}

#[test]
fn to_bytes_writes_wider_values_behind_a_tag() {
    assert_eq!(session(251, Vec::new()).to_bytes().unwrap(), vec![251, 251, 0, 0]);
    assert_eq!(session(300, Vec::new()).to_bytes().unwrap(), vec![251, 44, 1, 0]);
    assert_eq!(session(65535, Vec::new()).to_bytes().unwrap(), vec![251, 255, 255, 0]);
    assert_eq!(session(65536, vec![9]).to_bytes().unwrap(), vec![252, 0, 0, 1, 0, 1, 9]);
    assert_eq!(
        session(u32::MAX as u64, Vec::new()).to_bytes().unwrap(),
        vec![252, 255, 255, 255, 255, 0]
    );
    assert_eq!(
        session(u32::MAX as u64 + 1, Vec::new()).to_bytes().unwrap(),
        vec![253, 0, 0, 0, 0, 1, 0, 0, 0, 0]
    );
    assert_eq!(
        session(u64::MAX, vec![1, 255, 3]).to_bytes().unwrap(),
        vec![253, 255, 255, 255, 255, 255, 255, 255, 255, 3, 1, 255, 3]
    );
}

#[test]
fn to_bytes_writes_a_long_answer_count_behind_a_tag() {
    let bytes = session(0, vec![7; 300]).to_bytes().unwrap();
    assert_eq!(bytes.len(), 304);
    assert_eq!(&bytes[..4], &[0, 251, 44, 1]);
    assert!(bytes[4..].iter().all(|b| *b == 7));
}

#[test]
fn encode_gives_url_safe_text_without_padding() {
    assert_eq!(session(1, vec![0, 2]).encode().unwrap().as_str(), "AQIAAg");
    assert_eq!(session(300, Vec::new()).encode().unwrap().as_str(), "-ywBAA");
    assert_eq!(session(65536, vec![9]).encode().unwrap().as_str(), "_AAAAQABCQ");
    assert_eq!(
        session(u64::MAX, vec![1, 255, 3]).encode().unwrap().as_str(),
        "_f__________AwH_Aw"
    );
}

#[test]
fn encode_uses_the_url_safe_alphabet_only() {
    for hash in [0u64, 62, 63, 0xfbff, 0xffff_ffff, u64::MAX, 0x3e3f_3e3f_3e3f_3e3f] {
        for answers in [Vec::new(), vec![255], vec![62, 63, 251], (0..=255).collect()] {
            let token = session(hash, answers.clone()).encode().unwrap();
            assert!(token
                .chars()
                .all(|c| c.is_ascii_alphanumeric() || c == '-' || c == '_'));
            let bytes = session(hash, answers).to_bytes().unwrap().len();
            assert_eq!(token.len(), bytes / 3 * 4 + [0, 2, 3][bytes % 3]);
        }
    }
}

#[test]
fn decode_refuses_every_character_outside_the_alphabet() {
    for c in (0u8..128).map(char::from) {
        let inside = c.is_ascii_alphanumeric() || c == '-' || c == '_';
        let text = format!("AQIA{}AAA", c);
        assert_eq!(Session::decode(&text).err() == Some(SessionError::Base64), !inside);
    }
}

#[test]
fn encode_fills_the_capacity_and_no_more() {
    assert_eq!(BINARY_CAPACITY, 512);
    let full = session(0, vec![1; 508]);
    assert_eq!(full.to_bytes().unwrap().len(), 512);
    let token = full.encode().unwrap();
    assert_eq!(token.len(), 683);
    assert_eq!(decoded(token.as_str()), (0, vec![1; 508]));

    let wide = session(u64::MAX, vec![1; 500]);
    assert_eq!(wide.to_bytes().unwrap().len(), 512);
    assert_eq!(decoded(wide.encode().unwrap().as_str()), (u64::MAX, vec![1; 500]));
}

#[test]
fn encode_fails_beyond_the_capacity() {
    assert_eq!(session(0, vec![1; 509]).to_bytes().err(), Some(CapacityExceeded));
    assert_eq!(session(0, vec![1; 509]).encode().err(), Some(CapacityExceeded));
    assert_eq!(session(u64::MAX, vec![1; 501]).encode().err(), Some(CapacityExceeded));
    assert_eq!(session(0, vec![1; 100_000]).encode().err(), Some(CapacityExceeded));
}

#[test]
fn decode_reads_a_token() {
    assert_eq!(decoded("AQIAAg"), (1, vec![0, 2]));
    assert_eq!(decoded("-ywBAA"), (300, Vec::new()));
    assert_eq!(decoded("_f__________AwH_Aw"), (u64::MAX, vec![1, 255, 3]));
}

#[test]
fn decode_gives_back_what_encode_was_given() {
    let cases = vec![
        session(0, Vec::new()),
        session(250, vec![0]),
        session(251, vec![255; 3]),
        session(0x1234_5678, (0..=255).collect()),
        session(u64::MAX - 1, vec![0, 1, 2, 3, 255, 254]),
        session(1 << 32, vec![9; 251]),
    ];
    for s in cases {
        let token = s.encode().unwrap();
        assert_eq!(decoded(token.as_str()), (s.questions_hash, s.answers.clone()));
        let bytes = s.to_bytes().unwrap();
        let back = Session::from_bytes(&bytes).unwrap();
        assert_eq!((back.questions_hash, back.answers), (s.questions_hash, s.answers));
    }
}

#[test]
fn decode_accepts_a_wide_form_of_a_small_value() {
    assert_eq!(decoded("-wEAAQc"), (1, vec![7]));
    let s = Session::from_bytes(&[253, 2, 0, 0, 0, 0, 0, 0, 0, 252, 1, 0, 0, 0, 5]).unwrap();
    assert_eq!((s.questions_hash, s.answers), (2, vec![5]));
}

#[test]
fn decode_refuses_text_that_is_not_base64() {
    for text in ["AQIAA", "AQIAAg==", "AQIAAh", "AQIA Ag", "AQIA+g", "AQIA/g", "é", "!"] {
        assert_eq!(Session::decode(text).err(), Some(SessionError::Base64));
    }
}

#[test]
fn decode_refuses_truncated_bytes() {
    assert_eq!(Session::decode("").err(), Some(SessionError::Bincode));
    assert_eq!(Session::decode("AQIA").err(), Some(SessionError::Bincode));
    assert_eq!(Session::from_bytes(&[1]).err(), Some(SessionError::Bincode));
    assert_eq!(Session::from_bytes(&[251, 1]).err(), Some(SessionError::Bincode));
    assert_eq!(Session::from_bytes(&[1, 253, 1, 0]).err(), Some(SessionError::Bincode));
}

#[test]
fn decode_refuses_bytes_after_the_record() {
    assert_eq!(Session::decode("AQIAAgk").err(), Some(SessionError::Bincode));
    assert_eq!(Session::from_bytes(&[1, 0, 0]).err(), Some(SessionError::Bincode));
}

#[test]
fn decode_refuses_every_truncation_and_extension_of_a_token() {
    let bytes = session(70_000, vec![3, 1, 4, 1, 5]).to_bytes().unwrap();
    for cut in 0..bytes.len() {
        assert_eq!(Session::from_bytes(&bytes[..cut]).err(), Some(SessionError::Bincode));
    }
    for extra in 0..=255u8 {
        let mut longer = bytes.clone();
        longer.push(extra);
        assert_eq!(Session::from_bytes(&longer).err(), Some(SessionError::Bincode));
    }
}

#[test]
fn decode_refuses_tags_that_no_integer_of_this_width_has() {
    assert_eq!(Session::decode("_gAA").err(), Some(SessionError::Bincode));
    assert_eq!(Session::from_bytes(&[255, 0]).err(), Some(SessionError::Bincode));
    assert_eq!(Session::from_bytes(&[1, 254, 0]).err(), Some(SessionError::Bincode));
}

#[test]
fn decode_refuses_an_answer_count_beyond_the_bytes() {
    let huge = [1, 253, 255, 255, 255, 255, 255, 255, 255, 255, 0, 0];
    assert_eq!(Session::from_bytes(&huge).err(), Some(SessionError::Bincode));
    assert_eq!(Session::from_bytes(&[1, 3, 0, 0]).err(), Some(SessionError::Bincode));
}

#[test]
fn decode_refuses_a_token_for_more_bytes_than_a_session_may_have() {
    let mut bytes = vec![0, 251, 253, 1];
    bytes.extend(vec![1u8; 509]);
    assert_eq!(bytes.len(), 513);
    let back = Session::from_bytes(&bytes).unwrap();
    assert_eq!(back.answers.len(), 509);
    let token = BASE64_URL_SAFE_NO_PAD.encode(&bytes);
    assert_eq!(Session::decode(&token).err(), Some(SessionError::Base64));
}

#[test]
fn a_flipped_bit_never_gives_the_same_session() {
    let s = session(0xfeed_beef, vec![0, 1, 2, 255]);
    let bytes = s.to_bytes().unwrap();
    for at in 0..bytes.len() {
        for bit in 0..8 {
            let mut changed = bytes.clone();
            changed[at] ^= 1 << bit;
            if let Ok(other) = Session::from_bytes(&changed) {
                assert_ne!((other.questions_hash, other.answers), (s.questions_hash, s.answers.clone()));
            }
        }
    }
}

#[test]
fn from_request_without_a_cookie_is_missing() {
    assert_eq!(Session::from_request(None).err(), Some(SessionError::Missing));
}

#[test]
fn from_request_decodes_the_cookie() {
    let s = Session::from_request(Some("AQIAAg")).unwrap();
    assert_eq!((s.questions_hash, s.answers), (1, vec![0, 2]));
    assert_eq!(Session::from_request(Some("*")).err(), Some(SessionError::Base64));
    assert_eq!(Session::from_request(Some("AQ")).err(), Some(SessionError::Bincode));
}

#[test]
fn register_answer_goes_on_to_the_next_question() {
    let mut s = session(1, Vec::new());
    assert_eq!(register_answer(&mut s, 0, 2, 3), NextPage::Question(1));
    assert_eq!(register_answer(&mut s, 1, 0, 3), NextPage::Question(2));
    assert_eq!(s.answers, vec![2, 0]);
}

#[test]
fn register_answer_goes_on_to_the_score_after_the_last_question() {
    let mut s = session(1, vec![0, 0]);
    assert_eq!(register_answer(&mut s, 2, 1, 3), NextPage::Score);
    assert_eq!(s.answers, vec![0, 0, 1]);
    assert_eq!(register_answer(&mut s, 7, 1, 3), NextPage::Score);
    assert_eq!(s.answers, vec![0, 0, 1, 255, 255, 255, 255, 1]);
}

#[test]
fn register_answer_keeps_the_choice_to_one_byte() {
    let mut s = session(1, Vec::new());
    register_answer(&mut s, 0, 256, 5);
    register_answer(&mut s, 1, 511, 5);
    register_answer(&mut s, 2, 255, 5);
    assert_eq!(s.answers, vec![0, 255, 255]);
}
