//! Training-state data types and their well-formedness invariant.

use vstd::prelude::*;

use crate::model::{pool_map, Model};

verus! {

/// Mastery record of one question that is still in the active pool.
///
/// `correct_count` is a *consecutive*-correct streak: an incorrect answer
/// resets it to zero.  `try_count` and `failed_count` are monotone lifetime
/// counters.
#[derive(Clone, Copy, Debug, PartialEq, Eq, Structural)]
pub struct QuestionState {
    /// Stable 1-based ordinal of the question in the bank.
    pub no: usize,
    pub try_count: usize,
    pub failed_count: usize,
    pub correct_count: usize,
}

/// The persisted training progress: the active pool plus the two recency
/// lists that bias selection toward recently-missed material.
#[derive(Debug)]
pub struct State {
    /// Ordinals recently answered incorrectly, oldest first, each at most once.
    pub recent_incorrect: Vec<usize>,
    /// Ordinals recently answered correctly but not yet mastered, oldest
    /// first, each at most once.
    pub recent_correct: Vec<usize>,
    /// One entry per question not yet mastered; the order carries no meaning
    /// and is reshuffled after every correct answer.
    pub questions_states: Vec<QuestionState>,
    /// Consecutive correct answers required to retire a question.
    pub complete_threshold: usize,
    /// Size of the question bank.
    pub total_questions: usize,
}

/// No two entries of the pool carry the same ordinal.
pub open spec fn unique_nos(s: Seq<QuestionState>) -> bool {
    forall|i: int, j: int|
        0 <= i < s.len() && 0 <= j < s.len() && i != j ==> s[i].no != s[j].no
}

/// Some entry of the pool carries ordinal `k`.
pub open spec fn has_no(s: Seq<QuestionState>, k: int) -> bool {
    exists|i: int| 0 <= i < s.len() && #[trigger] s[i].no == k
}

/// An index of the entry that carries ordinal `k` (meaningful under
/// `has_no`; unique under `unique_nos`).
pub open spec fn index_of_no(s: Seq<QuestionState>, k: int) -> int {
    choose|i: int| 0 <= i < s.len() && #[trigger] s[i].no == k
}

impl State {
    /// The internal invariant of a training state, established by
    /// `engine::init_state` and preserved by `engine::submit_answer`.
    pub open spec fn wf(&self) -> bool {
        &&& self.complete_threshold >= 1
        &&& self.questions_states@.len() <= self.total_questions
        &&& unique_nos(self.questions_states@)
        &&& forall|i: int|
            0 <= i < self.questions_states@.len() ==> 1 <= (
            #[trigger] self.questions_states@[i]).no <= self.total_questions
        &&& forall|i: int|
            0 <= i < self.questions_states@.len() ==> (
            #[trigger] self.questions_states@[i]).correct_count < self.complete_threshold
        &&& self.recent_incorrect@.no_duplicates()
        &&& self.recent_correct@.no_duplicates()
        &&& forall|i: int|
            0 <= i < self.recent_incorrect@.len() ==> has_no(
                self.questions_states@,
                #[trigger] self.recent_incorrect@[i] as int,
            )
        &&& forall|i: int|
            0 <= i < self.recent_correct@.len() ==> has_no(
                self.questions_states@,
                #[trigger] self.recent_correct@[i] as int,
            )
    }
}

/// A well-formed state reads to a well-formed model.
pub proof fn lemma_wf_to_model(s: State)
    requires
        s.wf(),
    ensures
        crate::model::wf_model(s@),
{
    let m = s@;
    crate::model::lemma_cast_no_duplicates(s.recent_incorrect@);
    crate::model::lemma_cast_no_duplicates(s.recent_correct@);
    assert forall|k: int| #[trigger] m.pool.dom().contains(k) implies 1 <= k <= m.total && 0
        <= m.pool[k].tries && 0 <= m.pool[k].fails && 0 <= m.pool[k].streak < m.threshold by {
        let w = index_of_no(s.questions_states@, k);
        assert(0 <= w < s.questions_states@.len() && s.questions_states@[w].no == k);
    }
    assert forall|i: int| 0 <= i < m.recent_incorrect.len() implies m.pool.dom().contains(
        #[trigger] m.recent_incorrect[i],
    ) by {
        assert(m.recent_incorrect[i] == s.recent_incorrect@[i] as int);
    }
    assert forall|i: int| 0 <= i < m.recent_correct.len() implies m.pool.dom().contains(
        #[trigger] m.recent_correct[i],
    ) by {
        assert(m.recent_correct[i] == s.recent_correct@[i] as int);
    }
}

/// A state whose pool has unique ordinals, fits the bank, and reads to a
/// well-formed model is itself well-formed.
pub proof fn lemma_wf_from_view(s: State)
    requires
        unique_nos(s.questions_states@),
        s.questions_states@.len() <= s.total_questions,
        crate::model::wf_model(s@),
    ensures
        s.wf(),
{
    let m = s@;
    crate::model::lemma_cast_no_duplicates(s.recent_incorrect@);
    crate::model::lemma_cast_no_duplicates(s.recent_correct@);
    assert forall|i: int|
        0 <= i < s.questions_states@.len() implies 1 <= (
        #[trigger] s.questions_states@[i]).no <= s.total_questions && s.questions_states@[i].correct_count
        < s.complete_threshold by {
        let k = s.questions_states@[i].no as int;
        assert(has_no(s.questions_states@, k));
        assert(m.pool.dom().contains(k));
        let w = index_of_no(s.questions_states@, k);
        assert(0 <= w < s.questions_states@.len() && s.questions_states@[w].no == k);
        assert(w == i);
        assert(m.pool[k] == crate::model::rec_of(s.questions_states@[i]));
    }
    assert forall|i: int| 0 <= i < s.recent_incorrect@.len() implies has_no(
        s.questions_states@,
        #[trigger] s.recent_incorrect@[i] as int,
    ) by {
        assert(m.recent_incorrect[i] == s.recent_incorrect@[i] as int);
        assert(m.pool.dom().contains(s.recent_incorrect@[i] as int));
    }
    assert forall|i: int| 0 <= i < s.recent_correct@.len() implies has_no(
        s.questions_states@,
        #[trigger] s.recent_correct@[i] as int,
    ) by {
        assert(m.recent_correct[i] == s.recent_correct@[i] as int);
        assert(m.pool.dom().contains(s.recent_correct@[i] as int));
    }
}

impl View for State {
    type V = Model;

    /// The mathematical reading of a training state: the pool as a map from
    /// ordinal to counters (the pool's order carries no meaning), and the
    /// recency lists as sequences of ordinals.
    open spec fn view(&self) -> Model {
        Model {
            pool: pool_map(self.questions_states@),
            recent_incorrect: self.recent_incorrect@.map_values(|x: usize| x as int),
            recent_correct: self.recent_correct@.map_values(|x: usize| x as int),
            threshold: self.complete_threshold as int,
            total: self.total_questions as int,
        }
    }
}

/// Whether the pool's ordinals are pairwise distinct.
#[verifier::loop_isolation(false)]
fn nos_unique(v: &Vec<QuestionState>) -> (r: bool)
    ensures
        r == unique_nos(v@),
{
    let mut i: usize = 0;
    while i < v.len()
        invariant
            i <= v@.len(),
            forall|a: int, b: int| 0 <= a < i && a < b < v@.len() ==> v@[a].no != v@[b].no,
        decreases v@.len() - i,
    {
        let mut j: usize = i + 1;
        while j < v.len()
            invariant
                i < v@.len(),
                i + 1 <= j <= v@.len(),
                forall|b: int| i < b < j ==> v@[i as int].no != v@[b].no,
            decreases v@.len() - j,
        {
            if v[j].no == v[i].no {
                proof {
                    if unique_nos(v@) {
                        assert(v@[i as int].no != v@[j as int].no);
                    }
                }
                return false;
            }
            j += 1;
        }
        i += 1;
    }
    proof {
        assert forall|a: int, b: int|
            0 <= a < v@.len() && 0 <= b < v@.len() && a != b implies v@[a].no != v@[b].no by {
            if a < b {
            } else {
            }
        }
    }
    true
}

/// Whether some pool entry carries ordinal `no`.
#[verifier::loop_isolation(false)]
fn contains_no(v: &Vec<QuestionState>, no: usize) -> (r: bool)
    ensures
        r == has_no(v@, no as int),
{
    let mut i: usize = 0;
    while i < v.len()
        invariant
            i <= v@.len(),
            forall|j: int| 0 <= j < i ==> v@[j].no != no,
        decreases v@.len() - i,
    {
        if v[i].no == no {
            return true;
        }
        i += 1;
    }
    proof {
        if has_no(v@, no as int) {
            let w = choose|w: int| 0 <= w < v@.len() && #[trigger] v@[w].no == no as int;
            assert(false);
        }
    }
    false
}

/// Whether a recency list is duplicate-free and names only active
/// ordinals.
#[verifier::loop_isolation(false)]
fn list_ok(l: &Vec<usize>, pool: &Vec<QuestionState>) -> (r: bool)
    ensures
        r == (l@.no_duplicates() && forall|i: int|
            0 <= i < l@.len() ==> has_no(pool@, #[trigger] l@[i] as int)),
{
    let mut i: usize = 0;
    while i < l.len()
        invariant
            i <= l@.len(),
            forall|a: int, b: int| 0 <= a < i && a < b < l@.len() ==> l@[a] != l@[b],
            forall|a: int| 0 <= a < i ==> has_no(pool@, #[trigger] l@[a] as int),
        decreases l@.len() - i,
    {
        if !contains_no(pool, l[i]) {
            return false;
        }
        let mut j: usize = i + 1;
        while j < l.len()
            invariant
                i < l@.len(),
                i + 1 <= j <= l@.len(),
                forall|b: int| i < b < j ==> l@[i as int] != l@[b],
            decreases l@.len() - j,
        {
            if l[j] == l[i] {
                proof {
                    if l@.no_duplicates() {
                        assert(l@[i as int] != l@[j as int]);
                    }
                }
                return false;
            }
            j += 1;
        }
        i += 1;
    }
    proof {
        assert forall|a: int, b: int|
            0 <= a < l@.len() && 0 <= b < l@.len() && a != b implies l@[a] != l@[b] by {
            if a < b {
            } else {
            }
        }
    }
    true
}

impl State {
    /// Runtime validation of the invariant, for states restored from
    /// storage: a malformed checkpoint must be rejected before the engine
    /// may run on it.
    #[verifier::loop_isolation(false)]
    pub fn check_wf(&self) -> (r: bool)
        ensures
            r == self.wf(),
    {
        if self.complete_threshold < 1 {
            return false;
        }
        if self.questions_states.len() > self.total_questions {
            return false;
        }
        if !nos_unique(&self.questions_states) {
            return false;
        }
        let mut i: usize = 0;
        while i < self.questions_states.len()
            invariant
                i <= self.questions_states@.len(),
                forall|j: int|
                    0 <= j < i ==> 1 <= (#[trigger] self.questions_states@[j]).no
                        <= self.total_questions && self.questions_states@[j].correct_count
                        < self.complete_threshold,
            decreases self.questions_states@.len() - i,
        {
            let q = self.questions_states[i];
            if q.no < 1 || q.no > self.total_questions || q.correct_count
                >= self.complete_threshold {
                return false;
            }
            i += 1;
        }
        if !list_ok(&self.recent_incorrect, &self.questions_states) {
            return false;
        }
        if !list_ok(&self.recent_correct, &self.questions_states) {
            return false;
        }
        true
    }
}

} // verus!
