//! The mathematical model of the engine: an order-free view of the
//! training state and the transition function applied by every answer.

use vstd::prelude::*;

use crate::state::{has_no, index_of_no, unique_nos, QuestionState};

verus! {

/// Counters of one active question, as unbounded integers.
#[verifier::ext_equal]
pub ghost struct Rec {
    pub tries: int,
    pub fails: int,
    /// The consecutive-correct streak.
    pub streak: int,
}

/// The order-free model of a training state.  Reshuffling the concrete
/// pool leaves the model unchanged.
#[verifier::ext_equal]
pub ghost struct Model {
    /// Ordinal of each not-yet-mastered question, mapped to its counters.
    pub pool: Map<int, Rec>,
    pub recent_incorrect: Seq<int>,
    pub recent_correct: Seq<int>,
    pub threshold: int,
    pub total: int,
}

/// The counters of a concrete pool entry.
pub open spec fn rec_of(q: QuestionState) -> Rec {
    Rec {
        tries: q.try_count as int,
        fails: q.failed_count as int,
        streak: q.correct_count as int,
    }
}

/// The order-free reading of a concrete pool: ordinal to counters.
pub open spec fn pool_map(s: Seq<QuestionState>) -> Map<int, Rec> {
    Map::new(
        |k: int| crate::state::has_no(s, k),
        |k: int| rec_of(s[crate::state::index_of_no(s, k)]),
    )
}

/// Removes the first occurrence of `k` from `s`, if any.
pub open spec fn remove_ordinal(s: Seq<int>, k: int) -> Seq<int> {
    match s.index_of_first(k) {
        Some(i) => s.remove(i),
        None => s,
    }
}

/// Appends `k` unless it is already a member; a repeat does not move `k`
/// toward the back.
pub open spec fn push_if_absent(s: Seq<int>, k: int) -> Seq<int> {
    if s.contains(k) {
        s
    } else {
        s.push(k)
    }
}

/// The invariant of the model, the image of `State::wf` under the view.
pub open spec fn wf_model(m: Model) -> bool {
    &&& m.threshold >= 1
    &&& forall|k: int| #[trigger] m.pool.dom().contains(k) ==> 1 <= k <= m.total
    &&& forall|k: int| #[trigger]
        m.pool.dom().contains(k) ==> 0 <= m.pool[k].tries && 0 <= m.pool[k].fails && 0
            <= m.pool[k].streak < m.threshold
    &&& m.recent_incorrect.no_duplicates()
    &&& m.recent_correct.no_duplicates()
    &&& forall|i: int|
        0 <= i < m.recent_incorrect.len() ==> m.pool.dom().contains(
            #[trigger] m.recent_incorrect[i],
        )
    &&& forall|i: int|
        0 <= i < m.recent_correct.len() ==> m.pool.dom().contains(#[trigger] m.recent_correct[i])
}

/// The effect of one submitted answer on the model, exactly as the mastery
/// update of the engine applies it: the try counter advances; a correct
/// answer extends the streak, records the ordinal among the recent correct
/// ones, and retires the question once the streak reaches the threshold; an
/// incorrect answer breaks the streak, advances the failure counter, and
/// records the ordinal among the recent incorrect ones.
pub open spec fn step(m: Model, k: int, correct: bool) -> Model {
    let r = m.pool[k];
    if correct {
        let r2 = Rec { tries: r.tries + 1, fails: r.fails, streak: r.streak + 1 };
        let rc = push_if_absent(m.recent_correct, k);
        if r2.streak >= m.threshold {
            Model {
                pool: m.pool.remove(k),
                recent_incorrect: remove_ordinal(m.recent_incorrect, k),
                recent_correct: remove_ordinal(rc, k),
                ..m
            }
        } else {
            Model { pool: m.pool.insert(k, r2), recent_correct: rc, ..m }
        }
    } else {
        let r2 = Rec { tries: r.tries + 1, fails: r.fails + 1, streak: 0 };
        Model {
            pool: m.pool.insert(k, r2),
            recent_incorrect: push_if_absent(m.recent_incorrect, k),
            ..m
        }
    }
}

/// The model of a fresh session over a bank of `total` questions: every
/// ordinal is pending with zeroed counters and nothing is recent.
pub open spec fn fresh_model(total: int, threshold: int) -> Model {
    Model {
        pool: Map::new(|k: int| 1 <= k <= total, |k: int| Rec { tries: 0, fails: 0, streak: 0 }),
        recent_incorrect: Seq::empty(),
        recent_correct: Seq::empty(),
        threshold: threshold,
        total: total,
    }
}

/// Ordinal-uniqueness implies value-uniqueness of the pool entries.
pub proof fn lemma_unique_nos_no_duplicates(s: Seq<QuestionState>)
    requires
        unique_nos(s),
    ensures
        s.no_duplicates(),
{
}

/// A permutation of a pool with unique ordinals holds the same entries,
/// the same ordinals, and has the same order-free reading.
pub proof fn lemma_perm_pool(s1: Seq<QuestionState>, s2: Seq<QuestionState>)
    requires
        unique_nos(s1),
        s1.to_multiset() == s2.to_multiset(),
    ensures
        unique_nos(s2),
        forall|x: QuestionState| s1.contains(x) <==> s2.contains(x),
        forall|k: int| has_no(s1, k) <==> has_no(s2, k),
        pool_map(s1) == pool_map(s2),
{
    broadcast use vstd::seq_lib::group_to_multiset_ensures;

    assert forall|x: QuestionState| s1.contains(x) <==> s2.contains(x) by {
        assert(s1.contains(x) <==> s1.to_multiset().count(x) > 0);
        assert(s2.contains(x) <==> s2.to_multiset().count(x) > 0);
    }
    lemma_unique_nos_no_duplicates(s1);
    s1.lemma_multiset_has_no_duplicates();
    s2.lemma_multiset_has_no_duplicates_conv();
    assert forall|i: int, j: int|
        0 <= i < s2.len() && 0 <= j < s2.len() && i != j implies s2[i].no != s2[j].no by {
        if s2[i].no == s2[j].no {
            assert(s2.contains(s2[i]));
            assert(s2.contains(s2[j]));
            let a = choose|a: int| 0 <= a < s1.len() && s1[a] == s2[i];
            let b = choose|b: int| 0 <= b < s1.len() && s1[b] == s2[j];
            assert(s1[a] == s2[i] && s1[b] == s2[j]);
            assert(false);
        }
    }
    assert forall|k: int| has_no(s1, k) <==> has_no(s2, k) by {
        if has_no(s1, k) {
            let i = choose|i: int| 0 <= i < s1.len() && #[trigger] s1[i].no == k;
            assert(s1.contains(s1[i]));
            let j = choose|j: int| 0 <= j < s2.len() && s2[j] == s1[i];
            assert(s2[j].no == k);
        }
        if has_no(s2, k) {
            let i = choose|i: int| 0 <= i < s2.len() && #[trigger] s2[i].no == k;
            assert(s2.contains(s2[i]));
            let j = choose|j: int| 0 <= j < s1.len() && s1[j] == s2[i];
            assert(s1[j].no == k);
        }
    }
    assert(pool_map(s1) =~= pool_map(s2)) by {
        assert forall|k: int| pool_map(s1).dom().contains(k) implies pool_map(s1)[k] == pool_map(
            s2,
        )[k] by {
            let i1 = index_of_no(s1, k);
            let i2 = index_of_no(s2, k);
            assert(0 <= i1 < s1.len() && s1[i1].no == k);
            assert(0 <= i2 < s2.len() && s2[i2].no == k);
            assert(s2.contains(s1[i1]));
            let j = choose|j: int| 0 <= j < s2.len() && s2[j] == s1[i1];
            assert(s2[j].no == k);
            assert(j == i2);
        }
    }
}

/// Replacing a pool entry by one with the same ordinal updates the
/// order-free reading at that ordinal alone.
pub proof fn lemma_pool_map_update(s: Seq<QuestionState>, i: int, q: QuestionState)
    requires
        unique_nos(s),
        0 <= i < s.len(),
        q.no == s[i].no,
    ensures
        unique_nos(s.update(i, q)),
        forall|k: int| has_no(s.update(i, q), k) <==> has_no(s, k),
        pool_map(s.update(i, q)) == pool_map(s).insert(q.no as int, rec_of(q)),
{
    let s2 = s.update(i, q);
    assert forall|k: int| has_no(s2, k) <==> has_no(s, k) by {
        if has_no(s2, k) {
            let w = choose|w: int| 0 <= w < s2.len() && #[trigger] s2[w].no == k;
            if w == i {
                assert(s[i].no == k);
            } else {
                assert(s[w].no == k);
            }
        }
        if has_no(s, k) {
            let w = choose|w: int| 0 <= w < s.len() && #[trigger] s[w].no == k;
            if w == i {
                assert(s2[i].no == k);
            } else {
                assert(s2[w].no == k);
            }
        }
    }
    assert(pool_map(s2) =~= pool_map(s).insert(q.no as int, rec_of(q))) by {
        assert forall|k: int| pool_map(s2).dom().contains(k) implies pool_map(s2)[k] == pool_map(
            s,
        ).insert(q.no as int, rec_of(q))[k] by {
            let w = index_of_no(s2, k);
            assert(0 <= w < s2.len() && s2[w].no == k);
            if k == q.no as int {
                assert(w == i);
            } else {
                assert(w != i);
                assert(s[w].no == k);
                let v = index_of_no(s, k);
                assert(0 <= v < s.len() && s[v].no == k);
                assert(v == w);
            }
        }
    }
}

/// Dropping a pool entry removes exactly its ordinal from the order-free
/// reading.
pub proof fn lemma_pool_map_remove(s: Seq<QuestionState>, i: int)
    requires
        unique_nos(s),
        0 <= i < s.len(),
    ensures
        unique_nos(s.remove(i)),
        forall|k: int| has_no(s.remove(i), k) <==> has_no(s, k) && k != s[i].no,
        pool_map(s.remove(i)) == pool_map(s).remove(s[i].no as int),
{
    let s2 = s.remove(i);
    assert forall|k: int| has_no(s2, k) <==> has_no(s, k) && k != s[i].no by {
        if has_no(s2, k) {
            let w = choose|w: int| 0 <= w < s2.len() && #[trigger] s2[w].no == k;
            if w < i {
                assert(s[w].no == k);
            } else {
                assert(s[w + 1].no == k);
            }
        }
        if has_no(s, k) && k != s[i].no {
            let w = choose|w: int| 0 <= w < s.len() && #[trigger] s[w].no == k;
            assert(w != i);
            if w < i {
                assert(s2[w].no == k);
            } else {
                assert(s2[w - 1].no == k);
            }
        }
    }
    assert(pool_map(s2) =~= pool_map(s).remove(s[i].no as int)) by {
        assert forall|k: int| pool_map(s2).dom().contains(k) implies pool_map(s2)[k] == pool_map(
            s,
        ).remove(s[i].no as int)[k] by {
            let w = index_of_no(s2, k);
            assert(0 <= w < s2.len() && s2[w].no == k);
            let v = index_of_no(s, k);
            assert(0 <= v < s.len() && s[v].no == k);
            if w < i {
                assert(s[w].no == k);
                assert(v == w);
            } else {
                assert(s[w + 1].no == k);
                assert(v == w + 1);
            }
        }
    }
}

/// Casting a list of ordinals to its mathematical reading commutes with
/// membership, push, and removal, and keeps duplicate-freedom.
pub proof fn lemma_cast_contains(s: Seq<usize>, x: usize)
    ensures
        s.map_values(|y: usize| y as int).contains(x as int) <==> s.contains(x),
{
    let m = s.map_values(|y: usize| y as int);
    if s.contains(x) {
        let i = choose|i: int| 0 <= i < s.len() && s[i] == x;
        assert(m[i] == x as int);
    }
    if m.contains(x as int) {
        let i = choose|i: int| 0 <= i < m.len() && m[i] == x as int;
        assert(s[i] == x);
    }
}

pub proof fn lemma_cast_push(s: Seq<usize>, x: usize)
    ensures
        s.push(x).map_values(|y: usize| y as int) == s.map_values(|y: usize| y as int).push(
            x as int,
        ),
{
    assert(s.push(x).map_values(|y: usize| y as int) =~= s.map_values(|y: usize| y as int).push(
        x as int,
    ));
}

pub proof fn lemma_cast_remove(s: Seq<usize>, i: int)
    requires
        0 <= i < s.len(),
    ensures
        s.remove(i).map_values(|y: usize| y as int) == s.map_values(|y: usize| y as int).remove(i),
{
    assert(s.remove(i).map_values(|y: usize| y as int) =~= s.map_values(
        |y: usize| y as int,
    ).remove(i));
}

pub proof fn lemma_cast_no_duplicates(s: Seq<usize>)
    ensures
        s.map_values(|y: usize| y as int).no_duplicates() <==> s.no_duplicates(),
{
    let m = s.map_values(|y: usize| y as int);
    if s.no_duplicates() {
        assert forall|i: int, j: int|
            0 <= i < m.len() && 0 <= j < m.len() && i != j implies m[i] != m[j] by {
            assert(m[i] == s[i] as int && m[j] == s[j] as int);
        }
    }
    if m.no_duplicates() {
        assert forall|i: int, j: int|
            0 <= i < s.len() && 0 <= j < s.len() && i != j implies s[i] != s[j] by {
            assert(m[i] == s[i] as int && m[j] == s[j] as int);
        }
    }
}

/// Appending a fresh ordinal keeps a recency list duplicate-free and adds
/// exactly that ordinal.
pub proof fn lemma_push_absent<A>(s: Seq<A>, x: A)
    requires
        s.no_duplicates(),
        !s.contains(x),
    ensures
        s.push(x).no_duplicates(),
        forall|y: A| s.push(x).contains(y) <==> s.contains(y) || y == x,
{
    let r = s.push(x);
    assert forall|i: int, j: int|
        0 <= i < r.len() && 0 <= j < r.len() && i != j implies r[i] != r[j] by {
        if i < s.len() && j < s.len() {
        } else if i < s.len() {
            assert(s.contains(s[i]));
        } else {
            assert(s.contains(s[j]));
        }
    }
    assert forall|y: A| r.contains(y) <==> s.contains(y) || y == x by {
        if r.contains(y) {
            let w = choose|w: int| 0 <= w < r.len() && r[w] == y;
            if w < s.len() {
                assert(s.contains(y));
            }
        }
        if s.contains(y) {
            let w = choose|w: int| 0 <= w < s.len() && s[w] == y;
            assert(r[w] == y);
        }
        if y == x {
            assert(r[s.len() as int] == y);
        }
    }
}

/// Removing the first occurrence of an ordinal from a duplicate-free
/// recency list removes it entirely and keeps the rest.
pub proof fn lemma_remove_first_props<A>(s: Seq<A>, x: A)
    requires
        s.no_duplicates(),
    ensures
        ({
            let r = match s.index_of_first(x) {
                Some(i) => s.remove(i),
                None => s,
            };
            &&& r.no_duplicates()
            &&& !r.contains(x)
            &&& forall|y: A| r.contains(y) ==> s.contains(y)
        }),
{
    s.index_of_first_ensures(x);
    match s.index_of_first(x) {
        Some(i) => {
            let r = s.remove(i);
            assert forall|a: int, b: int|
                0 <= a < r.len() && 0 <= b < r.len() && a != b implies r[a] != r[b] by {
                let a2: int = if a < i { a } else { a + 1 };
                let b2: int = if b < i { b } else { b + 1 };
                assert(r[a] == s[a2] && r[b] == s[b2]);
            }
            assert forall|y: A| r.contains(y) implies s.contains(y) by {
                let w = choose|w: int| 0 <= w < r.len() && r[w] == y;
                let w2: int = if w < i { w } else { w + 1 };
                assert(s[w2] == y);
            }
            if r.contains(x) {
                let w = choose|w: int| 0 <= w < r.len() && r[w] == x;
                let w2: int = if w < i { w } else { w + 1 };
                assert(s[w2] == x && s[i] == x && w2 != i);
                assert(false);
            }
        },
        None => {},
    }
}

/// The cast reading finds its first occurrence exactly where the concrete
/// list does.
pub proof fn lemma_cast_index_of_first(s: Seq<usize>, x: usize)
    ensures
        match s.index_of_first(x) {
            Some(i) => s.map_values(|y: usize| y as int).index_of_first(x as int) == Some(i),
            None => s.map_values(|y: usize| y as int).index_of_first(x as int) is None,
        },
{
    let m = s.map_values(|y: usize| y as int);
    s.index_of_first_ensures(x);
    m.index_of_first_ensures(x as int);
    lemma_cast_contains(s, x);
    match s.index_of_first(x) {
        Some(i) => {
            assert(m[i] == x as int);
            assert(m.contains(x as int));
            let j = m.index_of_first(x as int)->Some_0;
            assert(s[j] == x);
            assert(forall|l: int| 0 <= l < i ==> s[l] != x);
            assert(forall|l: int| 0 <= l < j ==> m[l] != x as int);
            assert forall|l: int| 0 <= l < j implies s[l] != x by {
                assert(m[l] == s[l] as int);
            }
            assert(j == i);
        },
        None => {},
    }
}

/// One step on an active ordinal keeps the model well-formed.
pub proof fn lemma_step_wf(m: Model, k: int, correct: bool)
    requires
        wf_model(m),
        m.pool.dom().contains(k),
    ensures
        wf_model(step(m, k, correct)),
{
    let m2 = step(m, k, correct);
    if correct {
        let rc = push_if_absent(m.recent_correct, k);
        if !m.recent_correct.contains(k) {
            lemma_push_absent(m.recent_correct, k);
        }
        assert(rc.no_duplicates());
        assert(forall|y: int| rc.contains(y) ==> m.recent_correct.contains(y) || y == k);
        if m.pool[k].streak + 1 >= m.threshold {
            lemma_remove_first_props(m.recent_incorrect, k);
            lemma_remove_first_props(rc, k);
            assert forall|i: int|
                0 <= i < m2.recent_incorrect.len() implies m2.pool.dom().contains(
                #[trigger] m2.recent_incorrect[i],
            ) by {
                assert(m2.recent_incorrect.contains(m2.recent_incorrect[i]));
                let y = m2.recent_incorrect[i];
                assert(m.recent_incorrect.contains(y));
                let w = choose|w: int| 0 <= w < m.recent_incorrect.len() && m.recent_incorrect[w] == y;
            }
            assert forall|i: int|
                0 <= i < m2.recent_correct.len() implies m2.pool.dom().contains(
                #[trigger] m2.recent_correct[i],
            ) by {
                assert(m2.recent_correct.contains(m2.recent_correct[i]));
                let y = m2.recent_correct[i];
                assert(rc.contains(y));
                if m.recent_correct.contains(y) {
                    let w = choose|w: int|
                        0 <= w < m.recent_correct.len() && m.recent_correct[w] == y;
                }
            }
        } else {
            assert forall|i: int|
                0 <= i < m2.recent_correct.len() implies m2.pool.dom().contains(
                #[trigger] m2.recent_correct[i],
            ) by {
                assert(rc.contains(rc[i]));
                let y = rc[i];
                if m.recent_correct.contains(y) {
                    let w = choose|w: int|
                        0 <= w < m.recent_correct.len() && m.recent_correct[w] == y;
                }
            }
        }
    } else {
        let ri = push_if_absent(m.recent_incorrect, k);
        if !m.recent_incorrect.contains(k) {
            lemma_push_absent(m.recent_incorrect, k);
        }
        assert forall|i: int|
            0 <= i < m2.recent_incorrect.len() implies m2.pool.dom().contains(
            #[trigger] m2.recent_incorrect[i],
        ) by {
            assert(ri.contains(ri[i]));
            let y = ri[i];
            if m.recent_incorrect.contains(y) {
                let w = choose|w: int|
                    0 <= w < m.recent_incorrect.len() && m.recent_incorrect[w] == y;
            }
        }
    }
}

/// A trace of submitted answers: each event names an active ordinal and
/// whether the answer was correct.
pub open spec fn valid_trace(m: Model, t: Seq<(int, bool)>) -> bool
    decreases t.len(),
{
    t.len() == 0 || (m.pool.dom().contains(t[0].0) && valid_trace(
        step(m, t[0].0, t[0].1),
        t.drop_first(),
    ))
}

/// The model after a whole trace of answers.
pub open spec fn run(m: Model, t: Seq<(int, bool)>) -> Model
    decreases t.len(),
{
    if t.len() == 0 {
        m
    } else {
        run(step(m, t[0].0, t[0].1), t.drop_first())
    }
}

/// How often ordinal `k` is answered in a trace.
pub open spec fn count_answers(t: Seq<(int, bool)>, k: int) -> int
    decreases t.len(),
{
    if t.len() == 0 {
        0
    } else {
        (if t[0].0 == k {
            1int
        } else {
            0int
        }) + count_answers(t.drop_first(), k)
    }
}

/// The length of the trailing block of correct answers for ordinal `k`:
/// how many corrects it has received since its last incorrect answer.
pub open spec fn trailing_correct(t: Seq<(int, bool)>, k: int) -> int
    decreases t.len(),
{
    if t.len() == 0 {
        0
    } else if t.last().0 == k {
        if t.last().1 {
            1 + trailing_correct(t.drop_last(), k)
        } else {
            0
        }
    } else {
        trailing_correct(t.drop_last(), k)
    }
}

/// Running a trace extended by one event is one step after running the
/// trace, and is valid exactly when the trace is and the event's ordinal is
/// still active.
pub proof fn lemma_run_snoc(m: Model, t: Seq<(int, bool)>, e: (int, bool))
    ensures
        run(m, t.push(e)) == step(run(m, t), e.0, e.1),
        valid_trace(m, t.push(e)) <==> valid_trace(m, t) && run(m, t).pool.dom().contains(e.0),
    decreases t.len(),
{
    if t.len() == 0 {
        let mid = step(m, e.0, e.1);
        assert(t.push(e)[0] == e);
        assert(t.push(e).drop_first() =~= Seq::<(int, bool)>::empty());
        assert(run(m, t.push(e)) == run(mid, Seq::<(int, bool)>::empty()));
        assert(run(mid, Seq::<(int, bool)>::empty()) == mid);
        assert(valid_trace(mid, Seq::<(int, bool)>::empty()));
        assert(valid_trace(m, t.push(e)) == (m.pool.dom().contains(e.0) && valid_trace(
            mid,
            Seq::<(int, bool)>::empty(),
        )));
        assert(run(m, t) == m);
        assert(valid_trace(m, t));
    } else {
        assert(t.push(e)[0] == t[0]);
        assert(t.push(e).drop_first() =~= t.drop_first().push(e));
        lemma_run_snoc(step(m, t[0].0, t[0].1), t.drop_first(), e);
        assert(run(m, t) == run(step(m, t[0].0, t[0].1), t.drop_first()));
        assert(valid_trace(m, t.push(e)) == (m.pool.dom().contains(t[0].0) && valid_trace(
            step(m, t[0].0, t[0].1),
            t.drop_first().push(e),
        )));
    }
}

/// A trace's steps keep the model well-formed.
pub proof fn lemma_run_wf(m: Model, t: Seq<(int, bool)>)
    requires
        wf_model(m),
        valid_trace(m, t),
    ensures
        wf_model(run(m, t)),
    decreases t.len(),
{
    if t.len() > 0 {
        lemma_step_wf(m, t[0].0, t[0].1);
        lemma_run_wf(step(m, t[0].0, t[0].1), t.drop_first());
    }
}

/// The pool only ever shrinks: an ordinal active after a trace was active
/// before it.
pub proof fn lemma_pool_shrinks(m: Model, t: Seq<(int, bool)>, k: int)
    requires
        valid_trace(m, t),
        run(m, t).pool.dom().contains(k),
    ensures
        m.pool.dom().contains(k),
    decreases t.len(),
{
    if t.len() > 0 {
        lemma_pool_shrinks(step(m, t[0].0, t[0].1), t.drop_first(), k);
    }
}

/// Law: over any sequence of answers, a question's try counter advances by
/// exactly the number of times the question was answered, for as long as
/// it stays active; it is never decremented.
pub proof fn lemma_try_count(m: Model, t: Seq<(int, bool)>, k: int)
    requires
        wf_model(m),
        valid_trace(m, t),
        run(m, t).pool.dom().contains(k),
    ensures
        run(m, t).pool[k].tries == m.pool[k].tries + count_answers(t, k),
    decreases t.len(),
{
    if t.len() > 0 {
        let m1 = step(m, t[0].0, t[0].1);
        lemma_step_wf(m, t[0].0, t[0].1);
        lemma_try_count(m1, t.drop_first(), k);
        lemma_pool_shrinks(m1, t.drop_first(), k);
    }
}

/// Law, one half: a single answer retires a question exactly when it is
/// correct and completes the threshold-long consecutive streak.
pub proof fn lemma_retire_iff(m: Model, k: int, correct: bool)
    requires
        wf_model(m),
        m.pool.dom().contains(k),
    ensures
        !step(m, k, correct).pool.dom().contains(k) <==> correct && m.pool[k].streak + 1
            >= m.threshold,
{
}

/// Law, other half: while a question stays active its streak counts the
/// correct answers it has received since its last incorrect answer -- on
/// top of its initial streak as long as it was never answered incorrectly.
pub proof fn lemma_streak(m: Model, t: Seq<(int, bool)>, k: int)
    requires
        wf_model(m),
        valid_trace(m, t),
        run(m, t).pool.dom().contains(k),
    ensures
        run(m, t).pool[k].streak == if trailing_correct(t, k) == count_answers(t, k) {
            m.pool[k].streak + trailing_correct(t, k)
        } else {
            trailing_correct(t, k)
        },
    decreases t.len(),
{
    if t.len() > 0 {
        let t0 = t.drop_last();
        let e = t.last();
        assert(t =~= t0.push(e));
        lemma_run_snoc(m, t0, e);
        let m1 = run(m, t0);
        lemma_run_wf(m, t0);
        assert(run(m, t) == step(m1, e.0, e.1));
        assert(m1.pool.dom().contains(e.0));
        lemma_pool_shrinks2(m1, e, k);
        lemma_streak(m, t0, k);
        lemma_count_snoc(t0, e, k);
        lemma_count_nonneg(t0, k);
        assert(t.last() == e && t.drop_last() =~= t0);
        if e.0 == k {
            if e.1 {
                assert(trailing_correct(t, k) == 1 + trailing_correct(t0, k));
                assert(count_answers(t, k) == count_answers(t0, k) + 1);
                assert(run(m, t).pool[k].streak == m1.pool[k].streak + 1);
            } else {
                assert(trailing_correct(t, k) == 0);
                assert(count_answers(t, k) >= 1);
                assert(run(m, t).pool[k].streak == 0);
            }
        } else {
            assert(trailing_correct(t, k) == trailing_correct(t0, k));
            assert(count_answers(t, k) == count_answers(t0, k));
            assert(run(m, t).pool[k] == m1.pool[k]);
        }
    }
}

/// One step on an active ordinal keeps an ordinal active only if it was
/// active before.
pub proof fn lemma_pool_shrinks2(m: Model, e: (int, bool), k: int)
    requires
        m.pool.dom().contains(e.0),
        step(m, e.0, e.1).pool.dom().contains(k),
    ensures
        m.pool.dom().contains(k),
{
}

/// A trace answers every ordinal a non-negative number of times.
pub proof fn lemma_count_nonneg(t: Seq<(int, bool)>, k: int)
    ensures
        count_answers(t, k) >= 0,
    decreases t.len(),
{
    if t.len() > 0 {
        lemma_count_nonneg(t.drop_first(), k);
    }
}

/// Counting distributes over extending a trace by one event.
pub proof fn lemma_count_snoc(t: Seq<(int, bool)>, e: (int, bool), k: int)
    ensures
        count_answers(t.push(e), k) == count_answers(t, k) + (if e.0 == k {
            1int
        } else {
            0int
        }),
    decreases t.len(),
{
    if t.len() == 0 {
        assert(t.push(e).drop_first() =~= t);
    } else {
        assert(t.push(e)[0] == t[0]);
        assert(t.push(e).drop_first() =~= t.drop_first().push(e));
        lemma_count_snoc(t.drop_first(), e, k);
    }
}

/// Law: retirement is permanent.  An ordinal absent from the pool and from
/// both recency lists stays absent through any further valid trace, so it
/// can never be selected again this session.
pub proof fn lemma_retired_stays(m: Model, t: Seq<(int, bool)>, k: int)
    requires
        wf_model(m),
        valid_trace(m, t),
        !m.pool.dom().contains(k),
        !m.recent_incorrect.contains(k),
        !m.recent_correct.contains(k),
    ensures
        !run(m, t).pool.dom().contains(k),
        !run(m, t).recent_incorrect.contains(k),
        !run(m, t).recent_correct.contains(k),
    decreases t.len(),
{
    if t.len() > 0 {
        let j = t[0].0;
        let c = t[0].1;
        let m1 = step(m, j, c);
        lemma_step_wf(m, j, c);
        assert(j != k);
        if c {
            if !m.recent_correct.contains(j) {
                lemma_push_absent(m.recent_correct, j);
            }
            let rc = push_if_absent(m.recent_correct, j);
            assert(!rc.contains(k));
            if m.pool[j].streak + 1 >= m.threshold {
                lemma_remove_any_not_contains(m.recent_incorrect, j, k);
                lemma_remove_any_not_contains(rc, j, k);
            }
        } else {
            if !m.recent_incorrect.contains(j) {
                lemma_push_absent(m.recent_incorrect, j);
            }
            assert(!push_if_absent(m.recent_incorrect, j).contains(k));
        }
        lemma_retired_stays(m1, t.drop_first(), k);
    }
}

/// Removing an occurrence of one ordinal cannot make another appear.
pub proof fn lemma_remove_any_not_contains(s: Seq<int>, j: int, k: int)
    requires
        !s.contains(k),
    ensures
        !remove_ordinal(s, j).contains(k),
{
    s.index_of_first_ensures(j);
    match s.index_of_first(j) {
        Some(i) => {
            let r = s.remove(i);
            if r.contains(k) {
                let w = choose|w: int| 0 <= w < r.len() && r[w] == k;
                let w2: int = if w < i {
                    w
                } else {
                    w + 1
                };
                assert(s[w2] == k);
                assert(false);
            }
        },
        None => {},
    }
}

} // verus!
