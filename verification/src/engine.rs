//! The selection and mastery engine: the only component that mutates a
//! training state.

use vstd::pervasive::VecAdditionalExecFns;
use vstd::prelude::*;

use crate::model::{
    fresh_model, lemma_cast_contains, lemma_cast_index_of_first, lemma_cast_push,
    lemma_cast_remove, lemma_perm_pool, lemma_pool_map_remove, lemma_pool_map_update,
    lemma_push_absent, lemma_remove_first_props, lemma_step_wf, pool_map, push_if_absent, rec_of, remove_ordinal, step, Rec,
};
use crate::rng::shuffle_vec;
use crate::state::{
    has_no, index_of_no, lemma_wf_from_view, lemma_wf_to_model, QuestionState, State,
};

verus! {

/// Whether ordinal `x` occurs in a recency list.
fn contains_ordinal(v: &Vec<usize>, x: usize) -> (r: bool)
    ensures
        r == v@.contains(x),
{
    let mut i: usize = 0;
    while i < v.len()
        invariant
            i <= v@.len(),
            forall|j: int| 0 <= j < i ==> v@[j] != x,
        decreases v@.len() - i,
    {
        if v[i] == x {
            return true;
        }
        i += 1;
    }
    false
}

/// Removes the first occurrence of ordinal `x` from a recency list, if any.
#[verifier::loop_isolation(false)]
fn remove_first(v: &mut Vec<usize>, x: usize)
    ensures
        final(v)@ == match old(v)@.index_of_first(x) {
            Some(i) => old(v)@.remove(i),
            None => old(v)@,
        },
{
    let ghost orig = v@;
    let mut i: usize = 0;
    while i < v.len()
        invariant
            v@ == orig,
            i <= orig.len(),
            forall|j: int| 0 <= j < i ==> orig[j] != x,
        decreases orig.len() - i,
    {
        if v[i] == x {
            v.remove(i);
            proof {
                orig.index_of_first_ensures(x);
                assert(orig.contains(x));
                let fi = orig.index_of_first(x)->Some_0;
                assert(orig[fi] == x && forall|j: int| 0 <= j < fi ==> orig[j] != x);
                assert(fi == i);
            }
            return;
        }
        i += 1;
    }
    proof {
        orig.index_of_first_ensures(x);
        if orig.contains(x) {
            let fi = orig.index_of_first(x)->Some_0;
            assert(orig[fi] == x);
            assert(false);
        }
    }
}

/// Position of the pool entry carrying ordinal `no`; the well-formedness
/// invariant guarantees the entry exists whenever a recency list names it.
fn find_no(v: &Vec<QuestionState>, no: usize) -> (i: usize)
    requires
        has_no(v@, no as int),
    ensures
        i < v@.len(),
        v@[i as int].no == no,
{
    let mut i: usize = 0;
    while i < v.len()
        invariant
            i <= v@.len(),
            forall|j: int| 0 <= j < i ==> v@[j].no != no,
            has_no(v@, no as int),
        decreases v@.len() - i,
    {
        if v[i].no == no {
            return i;
        }
        i += 1;
    }
    proof {
        let w = choose|w: int| 0 <= w < v@.len() && #[trigger] v@[w].no == no as int;
        assert(false);
    }
    0
}

impl State {
    /// A fresh session over a bank of `total_questions` questions: every
    /// ordinal enters the pool with zeroed counters, in a random order.
    pub fn init_state(total_questions: usize, complete_threshold: usize) -> (s: State)
        requires
            complete_threshold >= 1,
        ensures
            s.wf(),
            s@ == fresh_model(total_questions as int, complete_threshold as int),
            s.questions_states@.len() == total_questions,
            s.complete_threshold == complete_threshold,
            s.total_questions == total_questions,
    {
        let mut qss: Vec<QuestionState> = Vec::new();
        let mut i: usize = 0;
        while i < total_questions
            invariant
                i <= total_questions,
                qss@.len() == i,
                forall|j: int|
                    0 <= j < i ==> #[trigger] qss@[j] == (QuestionState {
                        no: (j + 1) as usize,
                        try_count: 0,
                        failed_count: 0,
                        correct_count: 0,
                    }),
            decreases total_questions - i,
        {
            qss.push(
                QuestionState { no: i + 1, try_count: 0, failed_count: 0, correct_count: 0 },
            );
            i += 1;
        }
        let ghost ordered = qss@;
        proof {
            assert forall|k: int| has_no(ordered, k) <==> 1 <= k <= total_questions by {
                if has_no(ordered, k) {
                    let w = choose|w: int| 0 <= w < ordered.len() && #[trigger] ordered[w].no == k;
                } else if 1 <= k <= total_questions {
                    assert(ordered[k - 1].no == k);
                }
            }
        }
        shuffle_vec(&mut qss);
        proof {
            lemma_perm_pool(ordered, qss@);
            assert forall|j: int| 0 <= j < qss@.len() implies 1 <= (#[trigger] qss@[j]).no
                <= total_questions && qss@[j].correct_count < complete_threshold by {
                assert(qss@.contains(qss@[j]));
                assert(ordered.contains(qss@[j]));
                let w = choose|w: int| 0 <= w < ordered.len() && ordered[w] == qss@[j];
            }
        }
        let s = State {
            recent_incorrect: Vec::new(),
            recent_correct: Vec::new(),
            questions_states: qss,
            complete_threshold,
            total_questions,
        };
        proof {
            assert(s@.pool =~= fresh_model(
                total_questions as int,
                complete_threshold as int,
            ).pool) by {
                assert forall|k: int| s@.pool.dom().contains(k) implies s@.pool[k] == (Rec {
                    tries: 0,
                    fails: 0,
                    streak: 0,
                }) by {
                    let w = index_of_no(s.questions_states@, k);
                    assert(0 <= w < s.questions_states@.len() && s.questions_states@[w].no == k);
                    assert(s.questions_states@.contains(s.questions_states@[w]));
                    assert(ordered.contains(s.questions_states@[w]));
                    let v = choose|v: int|
                        0 <= v < ordered.len() && ordered[v] == s.questions_states@[w];
                }
            }
            assert(s@.recent_incorrect =~= Seq::<int>::empty());
            assert(s@.recent_correct =~= Seq::<int>::empty());
            assert(s@ =~= fresh_model(total_questions as int, complete_threshold as int));
        }
        s
    }

    /// Whether the session is complete: nothing is left to master.
    pub fn is_complete(&self) -> (r: bool)
        ensures
            r == (self@.pool.dom() =~= Set::<int>::empty()),
            r == (self.questions_states@.len() == 0),
    {
        let r = self.questions_states.len() == 0;
        proof {
            if r {
                assert forall|k: int| !self@.pool.dom().contains(k) by {}
                assert(self@.pool.dom() =~= Set::<int>::empty());
            } else {
                assert(has_no(self.questions_states@, self.questions_states@[0].no as int));
                assert(self@.pool.dom().contains(self.questions_states@[0].no as int));
            }
        }
        r
    }

    /// How many questions have been mastered so far.
    pub fn mastered(&self) -> (n: usize)
        requires
            self.wf(),
        ensures
            n == self.total_questions - self.questions_states@.len(),
    {
        self.total_questions - self.questions_states.len()
    }

    /// Applies one submitted answer for the question at pool position
    /// `qs_idx`, atomically from the caller's point of view: counters,
    /// recency lists, retirement and the retirement-triggered reshuffle are
    /// all the effect of this one call, and the state's order-free reading
    /// afterwards is exactly `step` applied to its reading before.
    pub fn submit_answer(&mut self, qs_idx: usize, is_correct: bool)
        requires
            old(self).wf(),
            qs_idx < old(self).questions_states@.len(),
            old(self).questions_states@[qs_idx as int].try_count < usize::MAX,
            old(self).questions_states@[qs_idx as int].failed_count < usize::MAX,
        ensures
            final(self).wf(),
            final(self)@ == step(
                old(self)@,
                old(self).questions_states@[qs_idx as int].no as int,
                is_correct,
            ),
            final(self).complete_threshold == old(self).complete_threshold,
            final(self).total_questions == old(self).total_questions,
    {
        let ghost m0 = self@;
        let ghost pool0 = self.questions_states@;
        let ghost ri0 = self.recent_incorrect@;
        let ghost rc0 = self.recent_correct@;
        let ghost k = pool0[qs_idx as int].no as int;
        proof {
            assert(has_no(pool0, k));
            let w = index_of_no(pool0, k);
            assert(0 <= w < pool0.len() && pool0[w].no == k);
            assert(w == qs_idx);
            assert(m0.pool.dom().contains(k));
            assert(m0.pool[k] == rec_of(pool0[qs_idx as int]));
            lemma_wf_to_model(*self);
        }
        let qs = self.questions_states[qs_idx];
        let no = qs.no;
        if is_correct {
            let qs2 = QuestionState {
                no: qs.no,
                try_count: qs.try_count + 1,
                failed_count: qs.failed_count,
                correct_count: qs.correct_count + 1,
            };
            self.questions_states.set(qs_idx, qs2);
            let ghost pool1 = self.questions_states@;
            proof {
                lemma_pool_map_update(pool0, qs_idx as int, qs2);
                assert(pool_map(pool1) == m0.pool.insert(k, rec_of(qs2)));
            }
            if !contains_ordinal(&self.recent_correct, no) {
                self.recent_correct.push(no);
                proof {
                    lemma_cast_push(rc0, no);
                    lemma_push_absent(rc0, no);
                }
            }
            let ghost rc1 = self.recent_correct@;
            proof {
                lemma_cast_contains(rc0, no);
                assert(rc1.map_values(|y: usize| y as int) == push_if_absent(m0.recent_correct, k));
            }
            if qs2.correct_count >= self.complete_threshold {
                // the streak reached the threshold: retire the question
                remove_first(&mut self.recent_incorrect, no);
                proof {
                    lemma_cast_index_of_first(ri0, no);
                    lemma_remove_first_props(ri0, no);
                    if let Some(i) = ri0.index_of_first(no) {
                        ri0.index_of_first_ensures(no);
                        lemma_cast_remove(ri0, i);
                    }
                    assert(self.recent_incorrect@.map_values(|y: usize| y as int) == remove_ordinal(
                        m0.recent_incorrect,
                        k,
                    ));
                }
                let ghost ri2 = self.recent_incorrect@;
                remove_first(&mut self.recent_correct, no);
                proof {
                    lemma_cast_index_of_first(rc1, no);
                    lemma_remove_first_props(rc1, no);
                    if let Some(i) = rc1.index_of_first(no) {
                        rc1.index_of_first_ensures(no);
                        lemma_cast_remove(rc1, i);
                    }
                    assert(self.recent_correct@.map_values(|y: usize| y as int) == remove_ordinal(
                        push_if_absent(m0.recent_correct, k),
                        k,
                    ));
                }
                let ghost rc2 = self.recent_correct@;
                self.questions_states.remove(qs_idx);
                let ghost pool2 = self.questions_states@;
                proof {
                    lemma_pool_map_remove(pool1, qs_idx as int);
                    assert(pool1[qs_idx as int] == qs2);
                    assert(pool_map(pool2) == pool_map(pool1).remove(k));
                    assert(pool_map(pool2) =~= m0.pool.remove(k));
                }
                shuffle_vec(&mut self.questions_states);
                proof {
                    lemma_perm_pool(pool2, self.questions_states@);
                    assert(pool_map(self.questions_states@) == m0.pool.remove(k));
                    assert(self@ =~= step(m0, k, true));
                    lemma_step_wf(m0, k, true);
                    lemma_wf_from_view(*self);
                }
            } else {
                let ghost pool2 = pool1;
                shuffle_vec(&mut self.questions_states);
                proof {
                    lemma_perm_pool(pool2, self.questions_states@);
                    assert(pool_map(self.questions_states@) == m0.pool.insert(k, rec_of(qs2)));
                    assert(rec_of(qs2) == (Rec {
                        tries: m0.pool[k].tries + 1,
                        fails: m0.pool[k].fails,
                        streak: m0.pool[k].streak + 1,
                    }));
                    assert(self@ =~= step(m0, k, true));
                    lemma_step_wf(m0, k, true);
                    lemma_wf_from_view(*self);
                }
            }
        } else {
            let qs2 = QuestionState {
                no: qs.no,
                try_count: qs.try_count + 1,
                failed_count: qs.failed_count + 1,
                correct_count: 0,
            };
            self.questions_states.set(qs_idx, qs2);
            let ghost pool1 = self.questions_states@;
            proof {
                lemma_pool_map_update(pool0, qs_idx as int, qs2);
                assert(pool_map(pool1) == m0.pool.insert(k, rec_of(qs2)));
            }
            if !contains_ordinal(&self.recent_incorrect, no) {
                self.recent_incorrect.push(no);
                proof {
                    lemma_cast_push(ri0, no);
                    lemma_push_absent(ri0, no);
                }
            }
            proof {
                lemma_cast_contains(ri0, no);
                assert(self.recent_incorrect@.map_values(|y: usize| y as int) == push_if_absent(
                    m0.recent_incorrect,
                    k,
                ));
                assert(rec_of(qs2) == (Rec {
                    tries: m0.pool[k].tries + 1,
                    fails: m0.pool[k].fails + 1,
                    streak: 0,
                }));
                assert(self@ =~= step(m0, k, false));
                lemma_step_wf(m0, k, false);
                lemma_wf_from_view(*self);
            }
        }
    }

    /// Picks the pool position of the question to present next.
    ///
    /// The two flags are the outcomes of the caller's random draws: the
    /// oldest recently-missed ordinal is preferred when `pick_recent_incorrect`
    /// is set, then the oldest recently-correct ordinal when
    /// `pick_recent_correct` is set, and otherwise the front of the pool,
    /// whose order the retirement-triggered reshuffles keep random.
    pub fn select_next(&self, pick_recent_incorrect: bool, pick_recent_correct: bool) -> (qs_idx:
        usize)
        requires
            self.wf(),
            self.questions_states@.len() > 0,
        ensures
            qs_idx < self.questions_states@.len(),
            self@.pool.dom().contains(self.questions_states@[qs_idx as int].no as int),
            pick_recent_incorrect && self.recent_incorrect@.len() > 0
                ==> self.questions_states@[qs_idx as int].no == self.recent_incorrect@[0],
            !(pick_recent_incorrect && self.recent_incorrect@.len() > 0) && pick_recent_correct
                && self.recent_correct@.len() > 0 ==> self.questions_states@[qs_idx as int].no
                == self.recent_correct@[0],
            !(pick_recent_incorrect && self.recent_incorrect@.len() > 0) && !(pick_recent_correct
                && self.recent_correct@.len() > 0) ==> qs_idx == 0,
    {
        if pick_recent_incorrect && self.recent_incorrect.len() > 0 {
            let no = self.recent_incorrect[0];
            find_no(&self.questions_states, no)
        } else if pick_recent_correct && self.recent_correct.len() > 0 {
            let no = self.recent_correct[0];
            find_no(&self.questions_states, no)
        } else {
            0
        }
    }
}

} // verus!
