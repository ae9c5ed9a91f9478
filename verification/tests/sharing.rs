use quiz_state::schema::{Category, Choice, Question, Questions, Score};
use quiz_state::session::{CapacityExceeded, Session};
use quiz_state::sharing::{exported_score, exported_score_og_image, make_gauge, minutes_of, score_share};
use quiz_state::sharing::{EncodedV1, ExportedScoreOgImageResponse, Gauge, ScoreSaveForm, ShareError};
use quiz_state::sharing::{CALENDAR_FIRST, CALENDAR_LAST};
use quiz_state::sharing::{IMAGE_LANG, NAME_MAX, NAME_MIN, SHARE_CAPACITY, SHARE_VERSION};
use vec1::Vec1;

fn record(timestamp: i64, values: [i32; 4], name: &str) -> EncodedV1 {
    EncodedV1 {
        timestamp,
        trashness: values[0],
        sex: values[1],
        alcohol: values[2],
        drugs: values[3],
        player_name: name.to_string(),
    }
}

fn fields(r: &EncodedV1) -> (i64, [i32; 4], String) {
    (r.timestamp, [r.trashness, r.sex, r.alcohol, r.drugs], r.player_name.clone())
}

fn bytes_of(r: &EncodedV1) -> Vec<u8> {
    let mut buf = [0u8; 256];
    r.encode(&mut buf).unwrap().to_vec()
}

fn score(trashness: i32, sex: i32, alcohol: i32, drugs: i32) -> Score {
    Score { trashness, sex, alcohol, drugs }
}

fn questions() -> Questions {
    let q = |id, scores: Vec<Score>| Question {
        question: "question".to_string(),
        choices: Vec1::try_from_vec(
            scores.into_iter().map(|score| Choice { text: "c".to_string(), score }).collect(),
        )
        .unwrap(),
        id,
    };
    Questions::build(vec![
        q(0, vec![score(5, 0, -1, 0), score(0, 10, 0, 0)]),
        q(1, vec![score(0, 0, 15, 20), score(-3, 10, 0, 0)]),
    ])
    .unwrap()
}

#[test]
fn constants_of_the_share_format() {
    assert_eq!(SHARE_VERSION, 1);
    assert_eq!(SHARE_CAPACITY, 128);
    assert_eq!((NAME_MIN, NAME_MAX), (1, 50));
    assert_eq!(IMAGE_LANG, "fr");
}

#[test]
fn encode_writes_the_version_then_the_fields() {
    assert_eq!(bytes_of(&record(1, [0, -1, 1, -2], "a")), vec![1, 2, 0, 1, 2, 3, 1, 97]);
    assert_eq!(
        bytes_of(&record(28333333, [12, -7, 0, 300], "Zoé")),
        vec![1, 252, 42, 170, 96, 3, 24, 13, 0, 251, 88, 2, 4, 90, 111, 195, 169]
    );
}

#[test]
fn encode_writes_the_extremes_of_each_field() {
    assert_eq!(
        bytes_of(&record(-1, [i32::MIN, i32::MAX, 125, -126], "x")),
        vec![1, 1, 252, 255, 255, 255, 255, 252, 254, 255, 255, 255, 250, 251, 251, 0, 1, 120]
    );
    assert_eq!(
        bytes_of(&record(i64::MIN, [0; 4], "")),
        vec![1, 253, 255, 255, 255, 255, 255, 255, 255, 255, 0, 0, 0, 0, 0]
    );
    assert_eq!(
        bytes_of(&record(i64::MAX, [0; 4], "")),
        vec![1, 253, 254, 255, 255, 255, 255, 255, 255, 255, 0, 0, 0, 0, 0]
    );
}

#[test]
fn encode_leaves_the_rest_of_the_buffer() {
    let mut buf = [9u8; 12];
    let written = record(1, [0, -1, 1, -2], "a").encode(&mut buf).unwrap();
    assert_eq!(written, [1, 2, 0, 1, 2, 3, 1, 97]);
    assert_eq!(buf, [1, 2, 0, 1, 2, 3, 1, 97, 9, 9, 9, 9]);
}

#[test]
fn encode_fills_a_buffer_of_the_exact_length() {
    let mut buf = [0u8; 8];
    let r = record(1, [0, -1, 1, -2], "a");
    assert_eq!(r.encode(&mut buf), Ok(&[1u8, 2, 0, 1, 2, 3, 1, 97][..]));
}

#[test]
fn encode_fails_in_a_buffer_that_is_too_short() {
    let r = record(1, [0, -1, 1, -2], "a");
    for len in 0..8 {
        let mut buf = vec![0u8; len];
        assert_eq!(r.encode(&mut buf), Err(CapacityExceeded));
    }
}

#[test]
fn decode_reads_the_fields() {
    let r = EncodedV1::decode(&[1, 2, 0, 1, 2, 3, 1, 97]).unwrap();
    assert_eq!(fields(&r), (1, [0, -1, 1, -2], "a".to_string()));
    let r = EncodedV1::decode(&[
        1, 252, 42, 170, 96, 3, 24, 13, 0, 251, 88, 2, 4, 90, 111, 195, 169,
    ])
    .unwrap();
    assert_eq!(fields(&r), (28333333, [12, -7, 0, 300], "Zoé".to_string()));
}

#[test]
fn share_decode_gives_back_what_encode_was_given() {
    let cases = vec![
        record(0, [0; 4], ""),
        record(28_000_000, [i32::MAX, i32::MIN, -1, 1], "a"),
        record(-5, [125, -126, 126, -125], &"n".repeat(50)),
        record(1, [32767, -32768, 32768, -32769], &"é".repeat(25)),
        record(2, [1; 4], &"x".repeat(100)),
        record(3, [1; 4], "名前 🎲"),
    ];
    for r in cases {
        let back = EncodedV1::decode(&bytes_of(&r)).unwrap();
        assert_eq!(fields(&back), fields(&r));
    }
}

#[test]
fn decode_refuses_another_version() {
    assert_eq!(
        EncodedV1::decode(&[2, 2, 0, 1, 2, 3, 1, 97]).err(),
        Some(ShareError::UnsupportedVersion)
    );
    assert_eq!(
        EncodedV1::decode(&[0, 2, 0, 1, 2, 3, 1, 97]).err(),
        Some(ShareError::UnsupportedVersion)
    );
    assert_eq!(EncodedV1::decode(&[255]).err(), Some(ShareError::UnsupportedVersion));
    assert_eq!(exported_score("AgIAAQIDAWE").err(), Some(ShareError::UnsupportedVersion));
    assert_eq!(exported_score("AAIAAQIDAWE").err(), Some(ShareError::UnsupportedVersion));
}

#[test]
fn decode_refuses_no_bytes_at_all() {
    assert_eq!(EncodedV1::decode(&[]).err(), Some(ShareError::UnsupportedVersion));
    assert_eq!(exported_score("").err(), Some(ShareError::UnsupportedVersion));
}

#[test]
fn decode_refuses_every_truncation_and_extension() {
    let bytes = bytes_of(&record(28333333, [12, -7, 0, 300], "Zoé"));
    for cut in 1..bytes.len() {
        assert_eq!(EncodedV1::decode(&bytes[..cut]).err(), Some(ShareError::Bincode));
    }
    for extra in [0u8, 1, 97, 255] {
        let mut longer = bytes.clone();
        longer.push(extra);
        assert_eq!(EncodedV1::decode(&longer).err(), Some(ShareError::Bincode));
    }
}

#[test]
fn decode_refuses_a_value_too_wide_for_its_field() {
    // The first value, of 32 bits, behind the tag of a 64-bit integer.
    let bytes = [1, 2, 253, 1, 0, 0, 0, 0, 0, 0, 0, 1, 2, 3, 1, 97];
    assert_eq!(EncodedV1::decode(&bytes).err(), Some(ShareError::Bincode));
    assert_eq!(EncodedV1::decode(&[1, 254, 0, 1, 2, 3, 1, 97]).err(), Some(ShareError::Bincode));
}

#[test]
fn share_decode_accepts_a_wide_form_of_a_small_value() {
    let r = EncodedV1::decode(&[1, 253, 2, 0, 0, 0, 0, 0, 0, 0, 252, 1, 0, 0, 0, 1, 2, 3, 1, 97])
        .unwrap();
    assert_eq!(fields(&r), (1, [-1, -1, 1, -2], "a".to_string()));
}

#[test]
fn decode_refuses_a_name_that_is_not_utf8() {
    assert_eq!(
        EncodedV1::decode(&[1, 2, 0, 0, 0, 0, 2, 0xff, 0xfe]).err(),
        Some(ShareError::Bincode)
    );
    assert_eq!(exported_score("AQIAAAAAAv_-").err(), Some(ShareError::Bincode));
    assert_eq!(
        EncodedV1::decode(&[1, 2, 0, 0, 0, 0, 2, 0xc3]).err(),
        Some(ShareError::Bincode)
    );
}

#[test]
fn decode_refuses_minutes_that_overflow_as_seconds() {
    let bytes = bytes_of(&record(i64::MAX, [0; 4], "a"));
    assert_eq!(EncodedV1::decode(&bytes).err(), Some(ShareError::InvalidTimestamp));
    assert_eq!(
        exported_score("Af3-_________wAAAAABYQ").err(),
        Some(ShareError::InvalidTimestamp)
    );
    let bytes = bytes_of(&record(i64::MIN, [0; 4], "a"));
    assert_eq!(EncodedV1::decode(&bytes).err(), Some(ShareError::InvalidTimestamp));
}

#[test]
fn decode_refuses_minutes_beyond_the_calendar() {
    let bytes = bytes_of(&record(10_000_000_000_000_000, [0; 4], "a"));
    assert_eq!(EncodedV1::decode(&bytes).err(), Some(ShareError::InvalidTimestamp));
    assert_eq!(
        exported_score("Af0AAILf5A1HAAAAAAABYQ").err(),
        Some(ShareError::InvalidTimestamp)
    );
}

#[test]
fn timestamp_is_in_seconds() {
    assert_eq!(record(28333333, [0; 4], "a").timestamp(), Some(1_699_999_980));
    assert_eq!(record(0, [0; 4], "a").timestamp(), Some(0));
    assert_eq!(record(-1, [0; 4], "a").timestamp(), Some(-60));
}

#[test]
fn timestamp_is_missing_beyond_the_calendar() {
    assert_eq!(record(i64::MAX, [0; 4], "a").timestamp(), None);
    assert_eq!(record(i64::MAX / 60 + 1, [0; 4], "a").timestamp(), None);
    assert_eq!(record(i64::MAX / 60, [0; 4], "a").timestamp(), None);
    assert_eq!(record(i64::MIN, [0; 4], "a").timestamp(), None);
    assert_eq!(record(10_000_000_000_000_000, [0; 4], "a").timestamp(), None);
}

#[test]
fn score_holds_the_four_values() {
    assert_eq!(record(1, [1, -2, 3, -4], "a").score(), score(1, -2, 3, -4));
}

#[test]
fn minutes_round_down() {
    assert_eq!(minutes_of(0), 0);
    assert_eq!(minutes_of(59), 0);
    assert_eq!(minutes_of(60), 1);
    assert_eq!(minutes_of(119), 1);
    assert_eq!(minutes_of(1_700_000_059), 28_333_334);
    assert_eq!(minutes_of(-1), -1);
    assert_eq!(minutes_of(-60), -1);
    assert_eq!(minutes_of(-61), -2);
    assert_eq!(minutes_of(i64::MAX), 153_722_867_280_912_930);
    assert_eq!(minutes_of(i64::MIN), -153_722_867_280_912_931);
}

#[test]
fn share_string_is_url_safe_text_without_padding() {
    assert_eq!(record(1, [0, -1, 1, -2], "a").to_share_string().unwrap(), "AQIAAQIDAWE");
    assert_eq!(
        record(28333333, [12, -7, 0, 300], "Zoé").to_share_string().unwrap(),
        "AfwqqmADGA0A-1gCBFpvw6k"
    );
    assert_eq!(
        record(-1, [i32::MIN, i32::MAX, 125, -126], "x").to_share_string().unwrap(),
        "AQH8______z-____-vv7AAF4"
    );
}

#[test]
fn share_string_decodes_to_the_record() {
    let cases = vec![
        record(28_333_333, [12, -7, 0, 300], "Zoé"),
        record(0, [0; 4], "a"),
        record(-1_000, [i32::MIN, i32::MAX, i32::MIN, i32::MAX], &"n".repeat(50)),
        record(1, [1; 4], &"é".repeat(25)),
        record(1, [1; 4], ""),
    ];
    for r in cases {
        let text = r.to_share_string().unwrap();
        assert_eq!(fields(&exported_score(&text).unwrap()), fields(&r));
    }
}

#[test]
fn share_string_fails_beyond_the_capacity() {
    // 1 byte of version, 5 of values, 1 of length.
    assert!(record(0, [0; 4], &"n".repeat(120)).to_share_string().is_ok());
    assert_eq!(record(0, [0; 4], &"n".repeat(121)).to_share_string().unwrap().len(), 171);
    assert_eq!(record(0, [0; 4], &"n".repeat(122)).to_share_string(), Err(CapacityExceeded));
    assert_eq!(record(0, [0; 4], &"n".repeat(5000)).to_share_string(), Err(CapacityExceeded));
}

#[test]
fn exported_score_refuses_text_that_is_not_base64() {
    for text in ["AQIAAQIDAWE=", "AQIAAQIDAWF", "AQIAAQID AWE", "AQIAAQIDA", "?"] {
        assert_eq!(exported_score(text).err(), Some(ShareError::Base64));
    }
}

#[test]
fn form_accepts_names_of_one_to_fifty_bytes() {
    assert!(ScoreSaveForm::new("").is_none());
    assert_eq!(ScoreSaveForm::new("a").unwrap().name(), "a");
    assert_eq!(ScoreSaveForm::new(&"n".repeat(50)).unwrap().name().len(), 50);
    assert!(ScoreSaveForm::new(&"n".repeat(51)).is_none());
}

#[test]
fn form_counts_bytes_not_characters() {
    assert!(ScoreSaveForm::new(&"é".repeat(25)).is_some());
    assert!(ScoreSaveForm::new(&"é".repeat(26)).is_none());
}

#[test]
fn score_share_encodes_the_score_the_name_and_the_minute() {
    let questions = questions();
    let mut session = Session::new(&questions);
    session.register_answer(0, 0);
    session.register_answer(1, 0);
    assert_eq!(session.score(&questions), Some(score(5, 0, 14, 20)));
    let form = ScoreSaveForm::new("Ada").unwrap();
    let text = score_share(&session, &questions, &form, 1_700_000_059).unwrap();
    let back = exported_score(&text).unwrap();
    assert_eq!(fields(&back), (28_333_334, [5, 0, 14, 20], "Ada".to_string()));
    let seconds = back.timestamp().unwrap();
    assert_eq!(seconds, 1_700_000_040);
    assert!(1_700_000_059 - seconds < 60);
}

#[test]
fn score_share_gives_the_exact_string() {
    let q = |id, s: Score| Question {
        question: "q".to_string(),
        choices: Vec1::try_from_vec(vec![Choice { text: "c".to_string(), score: s }]).unwrap(),
        id,
    };
    let questions = Questions::build(vec![q(0, score(5, 10, 15, 20))]).unwrap();
    let mut session = Session::new(&questions);
    session.register_answer(0, 0);
    let form = ScoreSaveForm::new("Ada").unwrap();
    assert_eq!(
        score_share(&session, &questions, &form, 1_700_000_059),
        Some("AfwsqmADChQeKANBZGE".to_string())
    );
}

#[test]
fn score_share_of_a_session_without_score_gives_nothing() {
    let questions = questions();
    let name = "n".repeat(50);
    let form = ScoreSaveForm::new(&name).unwrap();

    let unfinished = Session::new(&questions);
    assert_eq!(score_share(&unfinished, &questions, &form, 0), None);

    let mut stale = Session::new(&questions);
    stale.register_answer(0, 0);
    stale.register_answer(1, 0);
    stale.questions_hash = stale.questions_hash.wrapping_add(1);
    assert_eq!(score_share(&stale, &questions, &form, 0), None);
}

#[test]
fn score_share_of_a_session_with_passed_over_questions_shares_what_was_answered() {
    let questions = questions();
    let mut session = Session::new(&questions);
    session.register_answer(1, 1);
    let name = "n".repeat(50);
    let form = ScoreSaveForm::new(&name).unwrap();
    let text = score_share(&session, &questions, &form, -1).unwrap();
    assert_eq!(fields(&exported_score(&text).unwrap()), (-1, [-3, 10, 0, 0], "n".repeat(50)));
}

#[test]
fn the_calendar_runs_between_its_first_and_last_second() {
    assert_eq!(CALENDAR_FIRST, chrono::DateTime::<chrono::Utc>::MIN_UTC.timestamp());
    assert_eq!(CALENDAR_LAST, chrono::DateTime::<chrono::Utc>::MAX_UTC.timestamp());
    assert_eq!(CALENDAR_FIRST, -8_334_601_228_800);
    assert_eq!(CALENDAR_LAST, 8_210_266_876_799);
    assert!(chrono::DateTime::from_timestamp(CALENDAR_FIRST, 0).is_some());
    assert!(chrono::DateTime::from_timestamp(CALENDAR_FIRST - 1, 0).is_none());
    assert!(chrono::DateTime::from_timestamp(CALENDAR_LAST, 0).is_some());
    assert!(chrono::DateTime::from_timestamp(CALENDAR_LAST + 1, 0).is_none());
}

#[test]
fn timestamp_is_there_from_the_first_to_the_last_minute_of_the_calendar() {
    assert_eq!(record(-138_910_020_480, [0; 4], "a").timestamp(), Some(CALENDAR_FIRST));
    assert_eq!(record(-138_910_020_481, [0; 4], "a").timestamp(), None);
    assert_eq!(record(136_837_781_279, [0; 4], "a").timestamp(), Some(CALENDAR_LAST - 59));
    assert_eq!(record(136_837_781_280, [0; 4], "a").timestamp(), None);
    let first = record(-138_910_020_480, [1, 2, 3, 4], "a");
    assert_eq!(fields(&EncodedV1::decode(&bytes_of(&first)).unwrap()), fields(&first));
    let last = record(136_837_781_279, [1, 2, 3, 4], "a");
    assert_eq!(fields(&EncodedV1::decode(&bytes_of(&last)).unwrap()), fields(&last));
    assert_eq!(
        EncodedV1::decode(&bytes_of(&record(136_837_781_280, [0; 4], "a"))).err(),
        Some(ShareError::InvalidTimestamp)
    );
    assert_eq!(
        EncodedV1::decode(&bytes_of(&record(-138_910_020_481, [0; 4], "a"))).err(),
        Some(ShareError::InvalidTimestamp)
    );
}

#[test]
fn gauge_runs_between_the_bounds_of_the_questions() {
    let questions = questions();
    assert_eq!(questions.mins(), score(-3, 0, -1, 0));
    assert_eq!(questions.maxes(), score(5, 20, 15, 20));
    let s = score(1, 2, 3, 4);
    assert_eq!(make_gauge(&questions, s, Category::Trashness), Gauge { from: -3, to: 5, value: 1 });
    assert_eq!(make_gauge(&questions, s, Category::Sex), Gauge { from: 0, to: 20, value: 2 });
    assert_eq!(make_gauge(&questions, s, Category::Alcohol), Gauge { from: -1, to: 15, value: 3 });
    assert_eq!(make_gauge(&questions, s, Category::Drugs), Gauge { from: 0, to: 20, value: 4 });
}

#[test]
fn og_image_inputs_hold_the_record_and_the_current_bounds() {
    let questions = questions();
    let inputs = exported_score_og_image(&questions, "AfwqqmADGA0A-1gCBFpvw6k").unwrap();
    assert_eq!(inputs.name, "Zoé");
    assert_eq!(inputs.lang, "fr");
    assert_eq!(inputs.creation_timestamp, 1_699_999_980);
    assert_eq!(inputs.trashness, Gauge { from: -3, to: 5, value: 12 });
    assert_eq!(inputs.sex, Gauge { from: 0, to: 20, value: -7 });
    assert_eq!(inputs.alcohol, Gauge { from: -1, to: 15, value: 0 });
    assert_eq!(inputs.drugs, Gauge { from: 0, to: 20, value: 300 });
}

#[test]
fn og_image_of_an_unknown_share_string_cannot_be_decoded() {
    let questions = questions();
    for text in ["", "?", "AgIAAQIDAWE", "AQIAAQID", "Af3-_________wAAAAABYQ"] {
        match exported_score_og_image(&questions, text) {
            Err(ExportedScoreOgImageResponse::CannotDecode(message)) => {
                assert_eq!(message, "Unknown share code")
            }
            other => panic!("unexpected: {:?}", other.map(|inputs| inputs.name)),
        }
    }
}

#[test]
fn responses_are_built_from_their_parts() {
    assert!(matches!(
        ExportedScoreOgImageResponse::cannot_decode(),
        ExportedScoreOgImageResponse::CannotDecode("Unknown share code")
    ));
    match ExportedScoreOgImageResponse::generation_error("no typst".to_string()) {
        ExportedScoreOgImageResponse::GenerationError(message) => assert_eq!(message, "no typst"),
        other => panic!("unexpected: {:?}", other),
    }
    match ExportedScoreOgImageResponse::from_render(Ok(vec![137, 80, 78, 71])) {
        ExportedScoreOgImageResponse::Png(image) => assert_eq!(image, vec![137, 80, 78, 71]),
        other => panic!("unexpected: {:?}", other),
    }
    match ExportedScoreOgImageResponse::from_render(Err("killed".to_string())) {
        ExportedScoreOgImageResponse::GenerationError(message) => assert_eq!(message, "killed"),
        other => panic!("unexpected: {:?}", other),
    }
}
