use training::answer::{check_multi, check_single, check_tf, classify_input, parse_tf, InputAction};
use training::bank::{
    question_from_row, remap_label, remapped_correct_multi, remapped_correct_single, shuffle_choices,
    Choice, Question,
};

#[test]
fn single_choice_is_case_insensitive() {
    assert!(check_single(&vec![b'a'], b'A'));
    assert!(check_single(&vec![b'A'], b'a'));
    assert!(!check_single(&vec![b'b'], b'A'));
    assert!(!check_single(&vec![b'a', b'a'], b'A'));
    assert!(!check_single(&Vec::new(), b'A'));
}

#[test]
fn multi_choice_ignores_order_and_case() {
    // correct labels {A, C}: the submission "ca" normalizes to {A, C}
    assert!(check_multi(&vec![b'c', b'a'], &vec![b'A', b'C']));
    assert!(check_multi(&vec![b'A', b'C'], &vec![b'A', b'C']));
    assert!(check_multi(&vec![b'C', b'a'], &vec![b'A', b'C']));
}

#[test]
fn multi_choice_collapses_duplicates() {
    assert!(check_multi(&vec![b'a', b'a', b'c'], &vec![b'A', b'C']));
}

#[test]
fn multi_choice_rejects_wrong_sets() {
    assert!(!check_multi(&vec![b'a'], &vec![b'A', b'C']));
    assert!(!check_multi(&vec![b'a', b'b', b'c'], &vec![b'A', b'C']));
    assert!(!check_multi(&Vec::new(), &vec![b'A']));
    assert!(check_multi(&Vec::new(), &Vec::new()));
}

#[test]
fn true_false_tokens() {
    assert_eq!(parse_tf(&vec![b't']), Some(true));
    assert_eq!(parse_tf(&vec![b'T']), Some(true));
    assert_eq!(parse_tf(&vec![b'f']), Some(false));
    assert_eq!(parse_tf(&vec![b'F']), Some(false));
    assert_eq!(parse_tf(&vec![b'x']), None);
    assert_eq!(parse_tf(&vec![b't', b't']), None);
    assert_eq!(parse_tf(&Vec::new()), None);
}

#[test]
fn true_false_matching() {
    assert_eq!(check_tf(&vec![b't'], true), Some(true));
    assert_eq!(check_tf(&vec![b'f'], true), Some(false));
    assert_eq!(check_tf(&vec![b'F'], false), Some(true));
    assert_eq!(check_tf(&vec![b'T'], false), Some(false));
    assert_eq!(check_tf(&vec![b'?'], true), None);
}

#[test]
fn control_tokens() {
    assert_eq!(classify_input(&vec![b'h'], true), InputAction::Hint);
    assert_eq!(classify_input(&vec![b'H'], false), InputAction::Hint);
    assert_eq!(classify_input(&vec![b's'], true), InputAction::Save);
    assert_eq!(classify_input(&vec![b'S'], false), InputAction::Save);
    assert_eq!(classify_input(&Vec::new(), true), InputAction::Ignore);
    assert_eq!(classify_input(&Vec::new(), false), InputAction::Answer);
    assert_eq!(classify_input(&vec![b'a'], true), InputAction::Answer);
    assert_eq!(classify_input(&vec![b'h', b'i'], true), InputAction::Answer);
}

fn orig_choices() -> Vec<Choice> {
    vec![
        Choice { label: b'A', content: b"apples".to_vec() },
        Choice { label: b'B', content: b"pears".to_vec() },
        Choice { label: b'C', content: b"plums".to_vec() },
    ]
}

#[test]
fn remap_follows_content_not_position() {
    // after relabelling, the content "apples" sits under label C
    let shuffled = vec![
        Choice { label: b'C', content: b"apples".to_vec() },
        Choice { label: b'A', content: b"pears".to_vec() },
        Choice { label: b'B', content: b"plums".to_vec() },
    ];
    assert_eq!(remap_label(&shuffled, &b"apples".to_vec()), Some(b'C'));
    assert_eq!(remap_label(&shuffled, &b"nothing".to_vec()), None);
    assert_eq!(remapped_correct_single(&orig_choices(), &shuffled, b'A'), Some(b'C'));
    let mut multi = remapped_correct_multi(&orig_choices(), &shuffled, &vec![b'A', b'C']);
    multi.sort();
    assert_eq!(multi, vec![b'B', b'C']);
}

#[test]
fn shuffle_choices_keeps_contents_and_label_set() {
    let orig = orig_choices();
    let shuffled = shuffle_choices(&orig);
    assert_eq!(shuffled.len(), orig.len());
    for (s, o) in shuffled.iter().zip(orig.iter()) {
        assert_eq!(s.content, o.content);
    }
    let mut labels: Vec<u8> = shuffled.iter().map(|c| c.label).collect();
    labels.sort();
    assert_eq!(labels, vec![b'A', b'B', b'C']);
}

#[test]
fn question_from_row_builds_single_and_multi() {
    let single = question_from_row(
        b"stem".to_vec(),
        vec![b"one".to_vec(), b"two".to_vec()],
        vec![b'B'],
    );
    match single {
        Question::SingleAns { text, choices, ans } => {
            assert_eq!(text, b"stem".to_vec());
            assert_eq!(ans, b'B');
            assert_eq!(choices.len(), 2);
            assert_eq!(choices[0].label, b'A');
            assert_eq!(choices[0].content, b"one".to_vec());
            assert_eq!(choices[1].label, b'B');
            assert_eq!(choices[1].content, b"two".to_vec());
        },
        _ => panic!("expected a single-choice question"),
    }
    let multi = question_from_row(
        b"stem".to_vec(),
        vec![b"one".to_vec(), b"two".to_vec(), b"three".to_vec()],
        vec![b'A', b'C'],
    );
    match multi {
        Question::MultiAns { choices, ans, .. } => {
            assert_eq!(ans, vec![b'A', b'C']);
            assert_eq!(choices[2].label, b'C');
        },
        _ => panic!("expected a multi-choice question"),
    }
}
