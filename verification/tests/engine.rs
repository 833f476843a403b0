use training::state::{QuestionState, State};

fn fresh(total: usize, threshold: usize) -> State {
    State::init_state(total, threshold)
}

fn find_idx(s: &State, no: usize) -> usize {
    s.questions_states.iter().position(|q| q.no == no).unwrap()
}

fn entry(s: &State, no: usize) -> QuestionState {
    s.questions_states[find_idx(s, no)]
}

#[test]
fn fresh_session_pool() {
    let s = fresh(5, 3);
    assert_eq!(s.total_questions, 5);
    assert_eq!(s.complete_threshold, 3);
    assert_eq!(s.questions_states.len(), 5);
    assert!(s.recent_incorrect.is_empty());
    assert!(s.recent_correct.is_empty());
    let mut nos: Vec<usize> = s.questions_states.iter().map(|q| q.no).collect();
    nos.sort();
    assert_eq!(nos, vec![1, 2, 3, 4, 5]);
    for q in &s.questions_states {
        assert_eq!(q.try_count, 0);
        assert_eq!(q.failed_count, 0);
        assert_eq!(q.correct_count, 0);
    }
    assert!(s.check_wf());
    assert!(!s.is_complete());
    assert_eq!(s.mastered(), 0);
}

#[test]
fn scenario_threshold_three_single_question() {
    // One question, threshold 3: incorrect, incorrect, correct, correct,
    // correct gives streaks 0, 0, 1, 2, 3; the third consecutive correct
    // retires ordinal 1 and the session is complete.
    let mut s = fresh(1, 3);
    let answers = [false, false, true, true, true];
    let expect_streak_while_active = [0usize, 0, 1, 2];
    for (step, &ok) in answers.iter().enumerate() {
        assert!(!s.is_complete());
        let idx = s.select_next(false, false);
        assert_eq!(s.questions_states[idx].no, 1);
        s.submit_answer(idx, ok);
        if step < 4 {
            assert_eq!(entry(&s, 1).correct_count, expect_streak_while_active[step]);
        }
    }
    assert!(s.is_complete());
    assert!(s.questions_states.is_empty());
    assert!(s.recent_incorrect.is_empty());
    assert!(s.recent_correct.is_empty());
    assert_eq!(s.mastered(), 1);
}

#[test]
fn incorrect_answer_updates_counters_and_list() {
    let mut s = fresh(3, 3);
    let idx = find_idx(&s, 2);
    s.submit_answer(idx, false);
    let q = entry(&s, 2);
    assert_eq!(q.try_count, 1);
    assert_eq!(q.failed_count, 1);
    assert_eq!(q.correct_count, 0);
    assert_eq!(s.recent_incorrect, vec![2]);
    assert!(s.recent_correct.is_empty());
    assert!(s.check_wf());
}

#[test]
fn incorrect_resets_streak() {
    let mut s = fresh(2, 5);
    s.submit_answer(find_idx(&s, 1), true);
    s.submit_answer(find_idx(&s, 1), true);
    assert_eq!(entry(&s, 1).correct_count, 2);
    s.submit_answer(find_idx(&s, 1), false);
    let q = entry(&s, 1);
    assert_eq!(q.correct_count, 0);
    assert_eq!(q.try_count, 3);
    assert_eq!(q.failed_count, 1);
}

#[test]
fn recent_lists_dedup_and_tolerate_both() {
    // An alternating history can leave the same ordinal in both recency
    // lists, each at most once.
    let mut s = fresh(2, 5);
    s.submit_answer(find_idx(&s, 1), false);
    s.submit_answer(find_idx(&s, 1), true);
    s.submit_answer(find_idx(&s, 1), false);
    s.submit_answer(find_idx(&s, 1), true);
    assert_eq!(s.recent_incorrect, vec![1]);
    assert_eq!(s.recent_correct, vec![1]);
    assert!(s.check_wf());
}

#[test]
fn retirement_clears_both_lists_and_pool() {
    let mut s = fresh(3, 2);
    s.submit_answer(find_idx(&s, 3), false);
    s.submit_answer(find_idx(&s, 3), true);
    s.submit_answer(find_idx(&s, 3), true);
    assert!(s.questions_states.iter().all(|q| q.no != 3));
    assert!(!s.recent_incorrect.contains(&3));
    assert!(!s.recent_correct.contains(&3));
    assert_eq!(s.questions_states.len(), 2);
    assert_eq!(s.mastered(), 1);
    assert!(s.check_wf());
}

#[test]
fn select_prefers_oldest_recent_incorrect() {
    let mut s = fresh(4, 3);
    s.submit_answer(find_idx(&s, 3), false);
    s.submit_answer(find_idx(&s, 2), false);
    assert_eq!(s.recent_incorrect, vec![3, 2]);
    let idx = s.select_next(true, false);
    assert_eq!(s.questions_states[idx].no, 3);
}

#[test]
fn select_falls_back_to_recent_correct_then_front() {
    let mut s = fresh(4, 5);
    s.submit_answer(find_idx(&s, 4), true);
    assert_eq!(s.recent_correct, vec![4]);
    let idx = s.select_next(false, true);
    assert_eq!(s.questions_states[idx].no, 4);
    let front = s.select_next(false, false);
    assert_eq!(front, 0);
    // a declined draw on an empty incorrect list also falls through
    let idx2 = s.select_next(true, true);
    assert_eq!(s.questions_states[idx2].no, 4);
}

#[test]
fn restored_complete_checkpoint_is_immediately_complete() {
    // All questions pre-mastered: the pool is empty, select_next is never
    // invoked, and the session reports Complete at once.
    let s = State {
        recent_incorrect: Vec::new(),
        recent_correct: Vec::new(),
        questions_states: Vec::new(),
        complete_threshold: 3,
        total_questions: 4,
    };
    let bytes = training::codec::encode_state(&s);
    let restored = training::codec::decode_state(&bytes).unwrap();
    assert!(restored.check_wf());
    assert!(restored.is_complete());
    assert_eq!(restored.mastered(), 4);
}

#[test]
fn check_wf_rejects_malformed_states() {
    let q = |no: usize, cc: usize| QuestionState {
        no,
        try_count: 0,
        failed_count: 0,
        correct_count: cc,
    };
    let base = |qs: Vec<QuestionState>, ri: Vec<usize>, rc: Vec<usize>, th: usize, tot: usize| {
        State {
            recent_incorrect: ri,
            recent_correct: rc,
            questions_states: qs,
            complete_threshold: th,
            total_questions: tot,
        }
    };
    assert!(!base(vec![q(1, 0)], vec![], vec![], 0, 1).check_wf());
    assert!(!base(vec![q(1, 0), q(1, 0)], vec![], vec![], 3, 2).check_wf());
    assert!(!base(vec![q(5, 0)], vec![], vec![], 3, 2).check_wf());
    assert!(!base(vec![q(1, 3)], vec![], vec![], 3, 1).check_wf());
    assert!(!base(vec![q(1, 0)], vec![2], vec![], 3, 1).check_wf());
    assert!(!base(vec![q(1, 0)], vec![], vec![1, 1], 3, 1).check_wf());
    assert!(!base(vec![q(1, 0), q(2, 0)], vec![], vec![], 3, 1).check_wf());
    assert!(base(vec![q(1, 0), q(2, 2)], vec![1], vec![2], 3, 2).check_wf());
}

#[test]
fn try_count_counts_every_answer() {
    let mut s = fresh(2, 100);
    for round in 0..10usize {
        s.submit_answer(find_idx(&s, 2), round % 3 == 0);
    }
    assert_eq!(entry(&s, 2).try_count, 10);
    assert_eq!(entry(&s, 1).try_count, 0);
}
