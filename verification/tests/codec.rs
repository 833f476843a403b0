use training::bank::{Choice, Question};
use training::codec::{decode_bank, decode_state, encode_bank, encode_state};
use training::state::{QuestionState, State};

fn sample_state() -> State {
    State {
        recent_incorrect: vec![3, 1],
        recent_correct: vec![2],
        questions_states: vec![
            QuestionState { no: 1, try_count: 4, failed_count: 2, correct_count: 0 },
            QuestionState { no: 2, try_count: 7, failed_count: 1, correct_count: 2 },
            QuestionState { no: 3, try_count: 1, failed_count: 1, correct_count: 0 },
        ],
        complete_threshold: 3,
        total_questions: 5,
    }
}

fn sample_bank() -> Vec<Question> {
    vec![
        Question::SingleAns {
            text: b"pick one".to_vec(),
            choices: vec![
                Choice { label: b'A', content: b"first".to_vec() },
                Choice { label: b'B', content: b"second".to_vec() },
            ],
            ans: b'B',
        },
        Question::MultiAns {
            text: b"pick some".to_vec(),
            choices: vec![
                Choice { label: b'A', content: b"x".to_vec() },
                Choice { label: b'B', content: b"y".to_vec() },
                Choice { label: b'C', content: b"z".to_vec() },
            ],
            ans: vec![b'A', b'C'],
        },
        Question::TrueOrFalse { text: b"yes or no".to_vec(), ans: true },
    ]
}

#[test]
fn checkpoint_round_trip_restores_every_field() {
    // Saving and reloading with no intervening mutation yields a state
    // equal in all fields.
    let s = sample_state();
    let bytes = encode_state(&s);
    let r = decode_state(&bytes).unwrap();
    assert_eq!(r.recent_incorrect, s.recent_incorrect);
    assert_eq!(r.recent_correct, s.recent_correct);
    assert_eq!(r.questions_states, s.questions_states);
    assert_eq!(r.complete_threshold, s.complete_threshold);
    assert_eq!(r.total_questions, s.total_questions);
}

#[test]
fn checkpoint_rejects_truncation_and_trailing_bytes() {
    let s = sample_state();
    let bytes = encode_state(&s);
    let mut short = bytes.clone();
    short.pop();
    assert!(decode_state(&short).is_none());
    let mut long = bytes.clone();
    long.push(0);
    assert!(decode_state(&long).is_none());
    assert!(decode_state(&Vec::new()).is_none());
}

#[test]
fn bank_decode_of_encode_restores_questions() {
    let bank = sample_bank();
    let bytes = encode_bank(&bank);
    let back = decode_bank(&bytes).unwrap();
    assert_eq!(back, bank);
}

#[test]
fn bank_encode_of_decode_is_identity_on_bytes() {
    // The bank format is canonical: bytes that decode re-encode to
    // themselves.
    let bytes = encode_bank(&sample_bank());
    let decoded = decode_bank(&bytes).unwrap();
    assert_eq!(encode_bank(&decoded), bytes);
}

#[test]
fn empty_bank_round_trips() {
    let bank: Vec<Question> = Vec::new();
    let bytes = encode_bank(&bank);
    assert_eq!(decode_bank(&bytes).unwrap(), bank);
}

#[test]
fn bank_rejects_unknown_tag() {
    let bank = vec![Question::TrueOrFalse { text: b"q".to_vec(), ans: false }];
    let mut bytes = encode_bank(&bank);
    // the variant tag sits right after the 8-byte question count
    bytes[8] = 9;
    assert!(decode_bank(&bytes).is_none());
}

#[test]
fn bank_rejects_non_canonical_bool() {
    let bank = vec![Question::TrueOrFalse { text: b"q".to_vec(), ans: false }];
    let mut bytes = encode_bank(&bank);
    let last = bytes.len() - 1;
    bytes[last] = 2;
    assert!(decode_bank(&bytes).is_none());
}
