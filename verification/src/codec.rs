//! Byte codecs for the checkpoint and question-bank exchange formats.
//!
//! Every value is encoded canonically: decoding accepts exactly the byte
//! strings that encoding produces, which gives round trips in both
//! directions.

use vstd::prelude::*;

use crate::bank::{Choice, ChoiceView, Question, QuestionView};
use crate::state::{QuestionState, State};

verus! {

/// The 8-byte little-endian encoding of a 64-bit value.  Opaque: proofs
/// go through the two round-trip lemmas and the length lemma below.
#[verifier::opaque]
pub open spec fn spec_enc_u64(x: u64) -> Seq<u8> {
    seq![
        (x % 256) as u8,
        ((x / 256) % 256) as u8,
        ((x / 65536) % 256) as u8,
        ((x / 16777216) % 256) as u8,
        ((x / 4294967296) % 256) as u8,
        ((x / 1099511627776) % 256) as u8,
        ((x / 281474976710656) % 256) as u8,
        ((x / 72057594037927936) % 256) as u8,
    ]
}

/// Decodes 8 little-endian bytes at `i`, yielding the value and the
/// position after it.
#[verifier::opaque]
pub open spec fn spec_dec_u64(s: Seq<u8>, i: int) -> Option<(u64, int)> {
    if 0 <= i && i + 8 <= s.len() {
        Some(
            (
                (s[i] + 256 * s[i + 1] + 65536 * s[i + 2] + 16777216 * s[i + 3] + 4294967296 * s[i
                    + 4] + 1099511627776 * s[i + 5] + 281474976710656 * s[i + 6]
                    + 72057594037927936 * s[i + 7]) as u64,
                i + 8,
            ),
        )
    } else {
        None
    }
}

/// Decoding reads back exactly the value that encoding wrote.
pub proof fn lemma_dec_enc_u64(s: Seq<u8>, i: int, x: u64)
    requires
        0 <= i,
        i + 8 <= s.len(),
        s.subrange(i, i + 8) == spec_enc_u64(x),
    ensures
        spec_dec_u64(s, i) == Some((x, i + 8)),
{
    reveal(spec_enc_u64);
    reveal(spec_dec_u64);
    assert(forall|k: int| 0 <= k < 8 ==> s[i + k] == #[trigger] spec_enc_u64(x)[k]) by {
        assert(forall|k: int|
            0 <= k < 8 ==> s[i + k] == #[trigger] s.subrange(i, i + 8)[k]);
    }
    assert((x % 256) + 256 * ((x / 256) % 256) + 65536 * ((x / 65536) % 256) + 16777216 * ((x
        / 16777216) % 256) + 4294967296 * ((x / 4294967296) % 256) + 1099511627776 * ((x
        / 1099511627776) % 256) + 281474976710656 * ((x / 281474976710656) % 256)
        + 72057594037927936 * ((x / 72057594037927936) % 256) == x) by (bit_vector);
}

/// Every 8 bytes that decode re-encode to themselves: the encoding is
/// canonical.
pub proof fn lemma_enc_dec_u64(s: Seq<u8>, i: int)
    requires
        0 <= i,
        i + 8 <= s.len(),
    ensures
        spec_dec_u64(s, i) matches Some((x, j)) && spec_enc_u64(x) == s.subrange(i, i + 8) && j == i
            + 8,
{
    reveal(spec_enc_u64);
    reveal(spec_dec_u64);
    let b0 = s[i] as u64;
    let b1 = s[i + 1] as u64;
    let b2 = s[i + 2] as u64;
    let b3 = s[i + 3] as u64;
    let b4 = s[i + 4] as u64;
    let b5 = s[i + 5] as u64;
    let b6 = s[i + 6] as u64;
    let b7 = s[i + 7] as u64;
    let x = (b0 + 256 * b1 + 65536 * b2 + 16777216 * b3 + 4294967296 * b4 + 1099511627776 * b5
        + 281474976710656 * b6 + 72057594037927936 * b7) as u64;
    assert(b0 < 256 && b1 < 256 && b2 < 256 && b3 < 256 && b4 < 256 && b5 < 256 && b6 < 256 && b7
        < 256 ==> {
        let v = (b0 + 256 * b1 + 65536 * b2 + 16777216 * b3 + 4294967296 * b4 + 1099511627776 * b5
            + 281474976710656 * b6 + 72057594037927936 * b7) as u64;
        &&& v % 256 == b0
        &&& (v / 256) % 256 == b1
        &&& (v / 65536) % 256 == b2
        &&& (v / 16777216) % 256 == b3
        &&& (v / 4294967296) % 256 == b4
        &&& (v / 1099511627776) % 256 == b5
        &&& (v / 281474976710656) % 256 == b6
        &&& (v / 72057594037927936) % 256 == b7
    }) by (bit_vector);
    assert(spec_enc_u64(x) =~= s.subrange(i, i + 8));
}

/// An encoded 64-bit value takes 8 bytes.
pub broadcast proof fn lemma_enc_u64_len(x: u64)
    ensures
        (#[trigger] spec_enc_u64(x)).len() == 8,
{
    reveal(spec_enc_u64);
}

/// Decoding starts inside the byte string and stops at most 8 bytes later.
pub broadcast proof fn lemma_dec_u64_bounds(s: Seq<u8>, i: int)
    ensures
        (#[trigger] spec_dec_u64(s, i)) matches Some((x, j)) ==> 0 <= i && j == i + 8 && j
            <= s.len(),
{
    reveal(spec_dec_u64);
}

/// A byte string that holds two encodings in a row holds each of them.
pub proof fn lemma_subrange_split(buf: Seq<u8>, i: int, a: Seq<u8>, b: Seq<u8>)
    requires
        0 <= i,
        i + a.len() + b.len() <= buf.len(),
        buf.subrange(i, i + a.len() + b.len()) == a + b,
    ensures
        buf.subrange(i, i + a.len()) == a,
        buf.subrange(i + a.len(), i + a.len() + b.len()) == b,
{
    let big = buf.subrange(i, i + a.len() + b.len());
    assert(buf.subrange(i, i + a.len()) =~= a) by {
        assert forall|m: int| 0 <= m < a.len() implies buf.subrange(i, i + a.len())[m] == a[m] by {
            assert(big[m] == (a + b)[m]);
        }
    }
    assert(buf.subrange(i + a.len(), i + a.len() + b.len()) =~= b) by {
        assert forall|m: int|
            0 <= m < b.len() implies buf.subrange(i + a.len(), i + a.len() + b.len())[m]
            == b[m] by {
            assert(big[a.len() + m] == (a + b)[a.len() + m]);
        }
    }
}

/// The encoding of one ordinal-list entry.
pub open spec fn spec_enc_usize(x: usize) -> Seq<u8> {
    spec_enc_u64(x as u64)
}

pub open spec fn spec_dec_usize(s: Seq<u8>, i: int) -> Option<(usize, int)> {
    match spec_dec_u64(s, i) {
        Some((x, j)) => if x <= usize::MAX as u64 {
            Some((x as usize, j))
        } else {
            None
        },
        None => None,
    }
}

/// The back-to-back encodings of a list's entries (the count stands
/// separately, in front).
pub open spec fn spec_enc_usizes(l: Seq<usize>) -> Seq<u8>
    decreases l.len(),
{
    if l.len() == 0 {
        Seq::empty()
    } else {
        spec_enc_usize(l[0]) + spec_enc_usizes(l.drop_first())
    }
}

pub open spec fn spec_dec_usizes(s: Seq<u8>, i: int, n: int, acc: Seq<usize>) -> Option<
    (Seq<usize>, int),
>
    decreases n,
{
    if n <= 0 {
        Some((acc, i))
    } else {
        match spec_dec_usize(s, i) {
            Some((x, j)) => spec_dec_usizes(s, j, n - 1, acc.push(x)),
            None => None,
        }
    }
}

pub proof fn lemma_enc_usizes_len(l: Seq<usize>)
    ensures
        spec_enc_usizes(l).len() == 8 * l.len(),
    decreases l.len(),
{
    broadcast use lemma_enc_u64_len;
    if l.len() > 0 {
        lemma_enc_usizes_len(l.drop_first());
    }
}

pub proof fn lemma_enc_usizes_push(l: Seq<usize>, x: usize)
    ensures
        spec_enc_usizes(l.push(x)) == spec_enc_usizes(l) + spec_enc_usize(x),
    decreases l.len(),
{
    broadcast use lemma_enc_u64_len;
    if l.len() == 0 {
        assert(l.push(x).drop_first() =~= l);
        assert(spec_enc_usizes(l.push(x)) =~= spec_enc_usizes(l) + spec_enc_usize(x));
    } else {
        assert(l.push(x)[0] == l[0]);
        assert(l.push(x).drop_first() =~= l.drop_first().push(x));
        lemma_enc_usizes_push(l.drop_first(), x);
        assert(spec_enc_usizes(l.push(x)) =~= spec_enc_usizes(l) + spec_enc_usize(x));
    }
}

pub proof fn lemma_dec_enc_usizes(buf: Seq<u8>, i: int, l: Seq<usize>, acc: Seq<usize>)
    requires
        0 <= i,
        i + 8 * l.len() <= buf.len(),
        buf.subrange(i, i + 8 * l.len()) == spec_enc_usizes(l),
    ensures
        spec_dec_usizes(buf, i, l.len() as int, acc) == Some((acc + l, i + 8 * l.len())),
    decreases l.len(),
{
    broadcast use lemma_enc_u64_len;
    lemma_enc_usizes_len(l);
    if l.len() == 0 {
        assert(acc + l =~= acc);
    } else {
        lemma_enc_usizes_len(l.drop_first());
        lemma_subrange_split(buf, i, spec_enc_usize(l[0]), spec_enc_usizes(l.drop_first()));
        lemma_dec_enc_u64(buf, i, l[0] as u64);
        lemma_dec_enc_usizes(buf, i + 8, l.drop_first(), acc.push(l[0]));
        assert(acc.push(l[0]) + l.drop_first() =~= acc + l);
    }
}

/// The encoding of one pool entry: its four counters.
pub open spec fn spec_enc_qs(q: QuestionState) -> Seq<u8> {
    spec_enc_u64(q.no as u64) + spec_enc_u64(q.try_count as u64) + spec_enc_u64(
        q.failed_count as u64,
    ) + spec_enc_u64(q.correct_count as u64)
}

pub open spec fn spec_dec_qs(s: Seq<u8>, i: int) -> Option<(QuestionState, int)> {
    match spec_dec_usize(s, i) {
        Some((no, j1)) => match spec_dec_usize(s, j1) {
            Some((tc, j2)) => match spec_dec_usize(s, j2) {
                Some((fc, j3)) => match spec_dec_usize(s, j3) {
                    Some((cc, j4)) => Some(
                        (
                            QuestionState {
                                no,
                                try_count: tc,
                                failed_count: fc,
                                correct_count: cc,
                            },
                            j4,
                        ),
                    ),
                    None => None,
                },
                None => None,
            },
            None => None,
        },
        None => None,
    }
}

pub proof fn lemma_dec_enc_qs(buf: Seq<u8>, i: int, q: QuestionState)
    requires
        0 <= i,
        i + 32 <= buf.len(),
        buf.subrange(i, i + 32) == spec_enc_qs(q),
    ensures
        spec_dec_qs(buf, i) == Some((q, i + 32)),
{
    broadcast use lemma_enc_u64_len;
    let e1 = spec_enc_u64(q.no as u64);
    let e2 = spec_enc_u64(q.try_count as u64);
    let e3 = spec_enc_u64(q.failed_count as u64);
    let e4 = spec_enc_u64(q.correct_count as u64);
    assert(buf.subrange(i, i + 32) == (e1 + e2 + e3) + e4) by {
        assert((e1 + e2 + e3) + e4 =~= spec_enc_qs(q));
    }
    lemma_subrange_split(buf, i, e1 + e2 + e3, e4);
    assert(buf.subrange(i, i + 24) == (e1 + e2) + e3) by {
        assert((e1 + e2) + e3 =~= e1 + e2 + e3);
    }
    lemma_subrange_split(buf, i, e1 + e2, e3);
    lemma_subrange_split(buf, i, e1, e2);
    lemma_dec_enc_u64(buf, i, q.no as u64);
    lemma_dec_enc_u64(buf, i + 8, q.try_count as u64);
    lemma_dec_enc_u64(buf, i + 16, q.failed_count as u64);
    lemma_dec_enc_u64(buf, i + 24, q.correct_count as u64);
}

pub open spec fn spec_enc_qss(l: Seq<QuestionState>) -> Seq<u8>
    decreases l.len(),
{
    if l.len() == 0 {
        Seq::empty()
    } else {
        spec_enc_qs(l[0]) + spec_enc_qss(l.drop_first())
    }
}

pub open spec fn spec_dec_qss(s: Seq<u8>, i: int, n: int, acc: Seq<QuestionState>) -> Option<
    (Seq<QuestionState>, int),
>
    decreases n,
{
    if n <= 0 {
        Some((acc, i))
    } else {
        match spec_dec_qs(s, i) {
            Some((q, j)) => spec_dec_qss(s, j, n - 1, acc.push(q)),
            None => None,
        }
    }
}

pub proof fn lemma_enc_qss_len(l: Seq<QuestionState>)
    ensures
        spec_enc_qss(l).len() == 32 * l.len(),
    decreases l.len(),
{
    broadcast use lemma_enc_u64_len;
    if l.len() > 0 {
        lemma_enc_qss_len(l.drop_first());
    }
}

pub proof fn lemma_enc_qss_push(l: Seq<QuestionState>, q: QuestionState)
    ensures
        spec_enc_qss(l.push(q)) == spec_enc_qss(l) + spec_enc_qs(q),
    decreases l.len(),
{
    broadcast use lemma_enc_u64_len;
    if l.len() == 0 {
        assert(l.push(q).drop_first() =~= l);
        assert(spec_enc_qss(l.push(q)) =~= spec_enc_qss(l) + spec_enc_qs(q));
    } else {
        assert(l.push(q)[0] == l[0]);
        assert(l.push(q).drop_first() =~= l.drop_first().push(q));
        lemma_enc_qss_push(l.drop_first(), q);
        assert(spec_enc_qss(l.push(q)) =~= spec_enc_qss(l) + spec_enc_qs(q));
    }
}

pub proof fn lemma_dec_enc_qss(buf: Seq<u8>, i: int, l: Seq<QuestionState>, acc: Seq<QuestionState>)
    requires
        0 <= i,
        i + 32 * l.len() <= buf.len(),
        buf.subrange(i, i + 32 * l.len()) == spec_enc_qss(l),
    ensures
        spec_dec_qss(buf, i, l.len() as int, acc) == Some((acc + l, i + 32 * l.len())),
    decreases l.len(),
{
    broadcast use lemma_enc_u64_len;
    lemma_enc_qss_len(l);
    if l.len() == 0 {
        assert(acc + l =~= acc);
    } else {
        lemma_enc_qss_len(l.drop_first());
        lemma_subrange_split(buf, i, spec_enc_qs(l[0]), spec_enc_qss(l.drop_first()));
        lemma_dec_enc_qs(buf, i, l[0]);
        lemma_dec_enc_qss(buf, i + 32, l.drop_first(), acc.push(l[0]));
        assert(acc.push(l[0]) + l.drop_first() =~= acc + l);
    }
}

/// What a checkpoint stores, read mathematically: every field of the
/// training state, order included.
#[verifier::ext_equal]
pub ghost struct StateImage {
    pub complete_threshold: usize,
    pub total_questions: usize,
    pub recent_incorrect: Seq<usize>,
    pub recent_correct: Seq<usize>,
    pub questions_states: Seq<QuestionState>,
}

pub open spec fn image_of(s: State) -> StateImage {
    StateImage {
        complete_threshold: s.complete_threshold,
        total_questions: s.total_questions,
        recent_incorrect: s.recent_incorrect@,
        recent_correct: s.recent_correct@,
        questions_states: s.questions_states@,
    }
}

/// The checkpoint format: the two constants, the two recency lists and the
/// pool, each list led by its count.
pub open spec fn spec_enc_state(s: State) -> Seq<u8> {
    spec_enc_usize(s.complete_threshold) + spec_enc_usize(s.total_questions) + spec_enc_u64(
        s.recent_incorrect@.len() as u64,
    ) + spec_enc_usizes(s.recent_incorrect@) + spec_enc_u64(s.recent_correct@.len() as u64)
        + spec_enc_usizes(s.recent_correct@) + spec_enc_u64(s.questions_states@.len() as u64)
        + spec_enc_qss(s.questions_states@)
}

pub open spec fn spec_dec_state(s: Seq<u8>, i: int) -> Option<(StateImage, int)> {
    match spec_dec_usize(s, i) {
        Some((th, j1)) => match spec_dec_usize(s, j1) {
            Some((tot, j2)) => match spec_dec_u64(s, j2) {
                Some((n1, j3)) => match spec_dec_usizes(s, j3, n1 as int, Seq::empty()) {
                    Some((ri, j4)) => match spec_dec_u64(s, j4) {
                        Some((n2, j5)) => match spec_dec_usizes(s, j5, n2 as int, Seq::empty()) {
                            Some((rc, j6)) => match spec_dec_u64(s, j6) {
                                Some((n3, j7)) => match spec_dec_qss(
                                    s,
                                    j7,
                                    n3 as int,
                                    Seq::empty(),
                                ) {
                                    Some((qss, j8)) => Some(
                                        (
                                            StateImage {
                                                complete_threshold: th,
                                                total_questions: tot,
                                                recent_incorrect: ri,
                                                recent_correct: rc,
                                                questions_states: qss,
                                            },
                                            j8,
                                        ),
                                    ),
                                    None => None,
                                },
                                None => None,
                            },
                            None => None,
                        },
                        None => None,
                    },
                    None => None,
                },
                None => None,
            },
            None => None,
        },
        None => None,
    }
}

/// Law: decoding an encoded checkpoint yields every field of the state
/// back unchanged.
pub proof fn lemma_state_round_trip(s: State)
    ensures
        spec_dec_state(spec_enc_state(s), 0) == Some(
            (image_of(s), spec_enc_state(s).len() as int),
        ),
{
    broadcast use lemma_enc_u64_len;
    let buf = spec_enc_state(s);
    let e1 = spec_enc_usize(s.complete_threshold);
    let e2 = spec_enc_usize(s.total_questions);
    let e3 = spec_enc_u64(s.recent_incorrect@.len() as u64);
    let e4 = spec_enc_usizes(s.recent_incorrect@);
    let e5 = spec_enc_u64(s.recent_correct@.len() as u64);
    let e6 = spec_enc_usizes(s.recent_correct@);
    let e7 = spec_enc_u64(s.questions_states@.len() as u64);
    let e8 = spec_enc_qss(s.questions_states@);
    lemma_enc_usizes_len(s.recent_incorrect@);
    lemma_enc_usizes_len(s.recent_correct@);
    lemma_enc_qss_len(s.questions_states@);
    assert(buf.subrange(0, buf.len() as int) =~= buf);
    assert(buf == (e1 + e2 + e3 + e4 + e5 + e6 + e7) + e8) by {
        assert((e1 + e2 + e3 + e4 + e5 + e6 + e7) + e8 =~= buf);
    }
    lemma_subrange_split(buf, 0, e1 + e2 + e3 + e4 + e5 + e6 + e7, e8);
    assert(buf.subrange(0, (e1 + e2 + e3 + e4 + e5 + e6).len() + e7.len() as int) == (e1 + e2 + e3
        + e4 + e5 + e6) + e7) by {
        assert((e1 + e2 + e3 + e4 + e5 + e6) + e7 =~= e1 + e2 + e3 + e4 + e5 + e6 + e7);
    }
    lemma_subrange_split(buf, 0, e1 + e2 + e3 + e4 + e5 + e6, e7);
    assert(buf.subrange(0, (e1 + e2 + e3 + e4 + e5).len() + e6.len() as int) == (e1 + e2 + e3 + e4
        + e5) + e6) by {
        assert((e1 + e2 + e3 + e4 + e5) + e6 =~= e1 + e2 + e3 + e4 + e5 + e6);
    }
    lemma_subrange_split(buf, 0, e1 + e2 + e3 + e4 + e5, e6);
    assert(buf.subrange(0, (e1 + e2 + e3 + e4).len() + e5.len() as int) == (e1 + e2 + e3 + e4)
        + e5) by {
        assert((e1 + e2 + e3 + e4) + e5 =~= e1 + e2 + e3 + e4 + e5);
    }
    lemma_subrange_split(buf, 0, e1 + e2 + e3 + e4, e5);
    assert(buf.subrange(0, (e1 + e2 + e3).len() + e4.len() as int) == (e1 + e2 + e3) + e4) by {
        assert((e1 + e2 + e3) + e4 =~= e1 + e2 + e3 + e4);
    }
    lemma_subrange_split(buf, 0, e1 + e2 + e3, e4);
    assert(buf.subrange(0, (e1 + e2).len() + e3.len() as int) == (e1 + e2) + e3) by {
        assert((e1 + e2) + e3 =~= e1 + e2 + e3);
    }
    lemma_subrange_split(buf, 0, e1 + e2, e3);
    lemma_subrange_split(buf, 0, e1, e2);
    lemma_dec_enc_u64(buf, 0, s.complete_threshold as u64);
    lemma_dec_enc_u64(buf, 8, s.total_questions as u64);
    lemma_dec_enc_u64(buf, 16, s.recent_incorrect@.len() as u64);
    lemma_dec_enc_usizes(buf, 24, s.recent_incorrect@, Seq::empty());
    let j4: int = 24 + 8 * (s.recent_incorrect@.len() as int);
    lemma_dec_enc_u64(buf, j4, s.recent_correct@.len() as u64);
    lemma_dec_enc_usizes(buf, j4 + 8, s.recent_correct@, Seq::empty());
    let j6: int = j4 + 8 + 8 * (s.recent_correct@.len() as int);
    lemma_dec_enc_u64(buf, j6, s.questions_states@.len() as u64);
    lemma_dec_enc_qss(buf, j6 + 8, s.questions_states@, Seq::empty());
    assert(Seq::<usize>::empty() + s.recent_incorrect@ =~= s.recent_incorrect@);
    assert(Seq::<usize>::empty() + s.recent_correct@ =~= s.recent_correct@);
    assert(Seq::<QuestionState>::empty() + s.questions_states@ =~= s.questions_states@);
    assert(s.recent_incorrect@.len() == s.recent_incorrect.len());
    assert(s.recent_correct@.len() == s.recent_correct.len());
    assert(s.questions_states@.len() == s.questions_states.len());
    let n1: u64 = s.recent_incorrect@.len() as u64;
    let n2: u64 = s.recent_correct@.len() as u64;
    let n3: u64 = s.questions_states@.len() as u64;
    assert(n1 as int == s.recent_incorrect@.len());
    assert(n2 as int == s.recent_correct@.len());
    assert(n3 as int == s.questions_states@.len());
    assert(spec_dec_usize(buf, 0) == Some((s.complete_threshold, 8int)));
    assert(spec_dec_usize(buf, 8) == Some((s.total_questions, 16int)));
    assert(spec_dec_u64(buf, 16) == Some((n1, 24int)));
    assert(spec_dec_usizes(buf, 24, n1 as int, Seq::empty()) == Some((s.recent_incorrect@, j4)));
    assert(spec_dec_u64(buf, j4) == Some((n2, j4 + 8)));
    assert(spec_dec_usizes(buf, j4 + 8, n2 as int, Seq::empty()) == Some((s.recent_correct@, j6)));
    assert(spec_dec_u64(buf, j6) == Some((n3, j6 + 8)));
    assert(spec_dec_qss(buf, j6 + 8, n3 as int, Seq::empty()) == Some(
        (s.questions_states@, buf.len() as int),
    ));
}

/// A recency list with its count in front.
pub open spec fn spec_dec_usize_list(s: Seq<u8>, i: int) -> Option<(Seq<usize>, int)> {
    match spec_dec_u64(s, i) {
        Some((n, j)) => spec_dec_usizes(s, j, n as int, Seq::empty()),
        None => None,
    }
}

/// A pool with its count in front.
pub open spec fn spec_dec_qs_list(s: Seq<u8>, i: int) -> Option<(Seq<QuestionState>, int)> {
    match spec_dec_u64(s, i) {
        Some((n, j)) => spec_dec_qss(s, j, n as int, Seq::empty()),
        None => None,
    }
}

/// Appends the 8-byte little-endian encoding of `x`.
pub fn enc_u64(x: u64, out: &mut Vec<u8>)
    ensures
        final(out)@ == old(out)@ + spec_enc_u64(x),
{
    proof {
        reveal(spec_enc_u64);
    }
    out.push((x % 256) as u8);
    out.push(((x / 256) % 256) as u8);
    out.push(((x / 65536) % 256) as u8);
    out.push(((x / 16777216) % 256) as u8);
    out.push(((x / 4294967296) % 256) as u8);
    out.push(((x / 1099511627776) % 256) as u8);
    out.push(((x / 281474976710656) % 256) as u8);
    out.push(((x / 72057594037927936) % 256) as u8);
    proof {
        assert(out@ =~= old(out)@ + spec_enc_u64(x));
    }
}

/// Reads back 8 little-endian bytes at `pos`.
pub fn dec_u64(buf: &Vec<u8>, pos: usize) -> (r: Option<(u64, usize)>)
    ensures
        match r {
            Some((x, j)) => spec_dec_u64(buf@, pos as int) == Some((x, j as int)),
            None => spec_dec_u64(buf@, pos as int) is None,
        },
{
    proof {
        reveal(spec_dec_u64);
    }
    if buf.len() < 8 || pos > buf.len() - 8 {
        return None;
    }
    let x = buf[pos] as u64 + 256 * (buf[pos + 1] as u64) + 65536 * (buf[pos + 2] as u64)
        + 16777216 * (buf[pos + 3] as u64) + 4294967296 * (buf[pos + 4] as u64) + 1099511627776
        * (buf[pos + 5] as u64) + 281474976710656 * (buf[pos + 6] as u64) + 72057594037927936
        * (buf[pos + 7] as u64);
    Some((x, pos + 8))
}

/// Appends one ordinal-list entry.
fn enc_usize(x: usize, out: &mut Vec<u8>)
    ensures
        final(out)@ == old(out)@ + spec_enc_usize(x),
{
    enc_u64(x as u64, out);
}

/// Reads back one ordinal-list entry.
fn dec_usize(buf: &Vec<u8>, pos: usize) -> (r: Option<(usize, usize)>)
    ensures
        match r {
            Some((x, j)) => spec_dec_usize(buf@, pos as int) == Some((x, j as int)),
            None => spec_dec_usize(buf@, pos as int) is None,
        },
{
    match dec_u64(buf, pos) {
        Some((x, j)) => if x <= usize::MAX as u64 {
            Some((x as usize, j))
        } else {
            None
        },
        None => None,
    }
}

/// Appends a recency list: its count, then its entries in order.
fn enc_usize_list(l: &Vec<usize>, out: &mut Vec<u8>)
    ensures
        final(out)@ == old(out)@ + spec_enc_u64(l@.len() as u64) + spec_enc_usizes(l@),
{
    broadcast use lemma_enc_u64_len;

    enc_u64(l.len() as u64, out);
    let ghost base = out@;
    let mut i: usize = 0;
    while i < l.len()
        invariant
            i <= l@.len(),
            out@ == base + spec_enc_usizes(l@.take(i as int)),
        decreases l@.len() - i,
    {
        enc_u64(l[i] as u64, out);
        proof {
            lemma_enc_usizes_push(l@.take(i as int), l@[i as int]);
            assert(l@.take(i as int).push(l@[i as int]) =~= l@.take(i as int + 1));
            assert(out@ =~= base + spec_enc_usizes(l@.take(i as int + 1)));
        }
        i += 1;
    }
    proof {
        assert(l@.take(l@.len() as int) =~= l@);
        assert(out@ =~= old(out)@ + spec_enc_u64(l@.len() as u64) + spec_enc_usizes(l@));
    }
}

/// Reads back a recency list.
#[verifier::loop_isolation(false)]
fn dec_usize_list(buf: &Vec<u8>, pos: usize) -> (r: Option<(Vec<usize>, usize)>)
    ensures
        match r {
            Some((l, j)) => spec_dec_usize_list(buf@, pos as int) == Some((l@, j as int)),
            None => spec_dec_usize_list(buf@, pos as int) is None,
        },
{
    let (n, start) = match dec_u64(buf, pos) {
        Some(p) => p,
        None => {
            return None;
        },
    };
    let mut l: Vec<usize> = Vec::new();
    let mut cur: usize = start;
    let mut rem: u64 = n;
    while rem > 0
        invariant
            spec_dec_usizes(buf@, start as int, n as int, Seq::empty()) == spec_dec_usizes(
                buf@,
                cur as int,
                rem as int,
                l@,
            ),
        decreases rem,
    {
        match dec_usize(buf, cur) {
            Some((x, j)) => {
                l.push(x);
                cur = j;
                rem = rem - 1;
            },
            None => {
                return None;
            },
        }
    }
    Some((l, cur))
}

/// Appends one pool entry.
fn enc_qs(q: &QuestionState, out: &mut Vec<u8>)
    ensures
        final(out)@ == old(out)@ + spec_enc_qs(*q),
{
    enc_u64(q.no as u64, out);
    enc_u64(q.try_count as u64, out);
    enc_u64(q.failed_count as u64, out);
    enc_u64(q.correct_count as u64, out);
    proof {
        assert(out@ =~= old(out)@ + spec_enc_qs(*q));
    }
}

/// Reads back one pool entry.
fn dec_qs(buf: &Vec<u8>, pos: usize) -> (r: Option<(QuestionState, usize)>)
    ensures
        match r {
            Some((q, j)) => spec_dec_qs(buf@, pos as int) == Some((q, j as int)),
            None => spec_dec_qs(buf@, pos as int) is None,
        },
{
    let (no, j1) = match dec_usize(buf, pos) {
        Some(p) => p,
        None => {
            return None;
        },
    };
    let (tc, j2) = match dec_usize(buf, j1) {
        Some(p) => p,
        None => {
            return None;
        },
    };
    let (fc, j3) = match dec_usize(buf, j2) {
        Some(p) => p,
        None => {
            return None;
        },
    };
    let (cc, j4) = match dec_usize(buf, j3) {
        Some(p) => p,
        None => {
            return None;
        },
    };
    Some((QuestionState { no, try_count: tc, failed_count: fc, correct_count: cc }, j4))
}

/// Appends the pool: its count, then its entries in order.
fn enc_qs_list(l: &Vec<QuestionState>, out: &mut Vec<u8>)
    ensures
        final(out)@ == old(out)@ + spec_enc_u64(l@.len() as u64) + spec_enc_qss(l@),
{
    broadcast use lemma_enc_u64_len;

    enc_u64(l.len() as u64, out);
    let ghost base = out@;
    let mut i: usize = 0;
    while i < l.len()
        invariant
            i <= l@.len(),
            out@ == base + spec_enc_qss(l@.take(i as int)),
        decreases l@.len() - i,
    {
        enc_qs(&l[i], out);
        proof {
            lemma_enc_qss_push(l@.take(i as int), l@[i as int]);
            assert(l@.take(i as int).push(l@[i as int]) =~= l@.take(i as int + 1));
            assert(out@ =~= base + spec_enc_qss(l@.take(i as int + 1)));
        }
        i += 1;
    }
    proof {
        assert(l@.take(l@.len() as int) =~= l@);
        assert(out@ =~= old(out)@ + spec_enc_u64(l@.len() as u64) + spec_enc_qss(l@));
    }
}

/// Reads back the pool.
#[verifier::loop_isolation(false)]
fn dec_qs_list(buf: &Vec<u8>, pos: usize) -> (r: Option<(Vec<QuestionState>, usize)>)
    ensures
        match r {
            Some((l, j)) => spec_dec_qs_list(buf@, pos as int) == Some((l@, j as int)),
            None => spec_dec_qs_list(buf@, pos as int) is None,
        },
{
    let (n, start) = match dec_u64(buf, pos) {
        Some(p) => p,
        None => {
            return None;
        },
    };
    let mut l: Vec<QuestionState> = Vec::new();
    let mut cur: usize = start;
    let mut rem: u64 = n;
    while rem > 0
        invariant
            spec_dec_qss(buf@, start as int, n as int, Seq::empty()) == spec_dec_qss(
                buf@,
                cur as int,
                rem as int,
                l@,
            ),
        decreases rem,
    {
        match dec_qs(buf, cur) {
            Some((q, j)) => {
                l.push(q);
                cur = j;
                rem = rem - 1;
            },
            None => {
                return None;
            },
        }
    }
    Some((l, cur))
}

/// Serializes a whole training state into checkpoint bytes.
pub fn encode_state(s: &State) -> (out: Vec<u8>)
    ensures
        out@ == spec_enc_state(*s),
{
    let mut out: Vec<u8> = Vec::new();
    enc_u64(s.complete_threshold as u64, &mut out);
    enc_u64(s.total_questions as u64, &mut out);
    enc_usize_list(&s.recent_incorrect, &mut out);
    enc_usize_list(&s.recent_correct, &mut out);
    enc_qs_list(&s.questions_states, &mut out);
    proof {
        assert(out@ =~= spec_enc_state(*s));
    }
    out
}

/// Reads a whole training state back from checkpoint bytes; fails unless
/// the bytes are one complete, canonical checkpoint.
pub fn decode_state(buf: &Vec<u8>) -> (r: Option<State>)
    ensures
        match r {
            Some(s2) => spec_dec_state(buf@, 0) == Some((image_of(s2), buf@.len() as int)),
            None => spec_dec_state(buf@, 0) matches Some((img, j)) ==> j != buf@.len(),
        },
{
    let (th, j1) = match dec_usize(buf, 0) {
        Some(p) => p,
        None => {
            return None;
        },
    };
    let (tot, j2) = match dec_usize(buf, j1) {
        Some(p) => p,
        None => {
            return None;
        },
    };
    let (ri, j3) = match dec_usize_list(buf, j2) {
        Some(p) => p,
        None => {
            return None;
        },
    };
    let (rc, j4) = match dec_usize_list(buf, j3) {
        Some(p) => p,
        None => {
            return None;
        },
    };
    let (qss, j5) = match dec_qs_list(buf, j4) {
        Some(p) => p,
        None => {
            return None;
        },
    };
    if j5 != buf.len() {
        return None;
    }
    let s = State {
        recent_incorrect: ri,
        recent_correct: rc,
        questions_states: qss,
        complete_threshold: th,
        total_questions: tot,
    };
    proof {
        assert(image_of(s) =~= image_of(s));
    }
    Some(s)
}

/// One byte, as itself.
pub open spec fn spec_dec_u8(s: Seq<u8>, i: int) -> Option<(u8, int)> {
    if 0 <= i && i + 1 <= s.len() {
        Some((s[i], i + 1))
    } else {
        None
    }
}

/// A boolean as one byte, 1 or 0; anything else is rejected.
pub open spec fn spec_enc_bool(b: bool) -> Seq<u8> {
    if b {
        seq![1u8]
    } else {
        seq![0u8]
    }
}

pub open spec fn spec_dec_bool(s: Seq<u8>, i: int) -> Option<(bool, int)> {
    if 0 <= i && i + 1 <= s.len() {
        if s[i] == 1 {
            Some((true, i + 1))
        } else if s[i] == 0 {
            Some((false, i + 1))
        } else {
            None
        }
    } else {
        None
    }
}

/// An opaque byte payload: its length, then the bytes themselves.
pub open spec fn spec_enc_bytes(b: Seq<u8>) -> Seq<u8> {
    spec_enc_u64(b.len() as u64) + b
}

pub open spec fn spec_dec_bytes(s: Seq<u8>, i: int) -> Option<(Seq<u8>, int)> {
    match spec_dec_u64(s, i) {
        Some((n, j)) => if j + n as int <= s.len() {
            Some((s.subrange(j, j + n as int), j + n as int))
        } else {
            None
        },
        None => None,
    }
}

/// Decoded payload bytes re-encode to what was read.
pub proof fn lemma_enc_dec_bytes(s: Seq<u8>, i: int)
    requires
        0 <= i,
    ensures
        spec_dec_bytes(s, i) matches Some((b, j)) ==> i <= j <= s.len() && s.subrange(i, j)
            == spec_enc_bytes(b),
{
    broadcast use lemma_enc_u64_len, lemma_dec_u64_bounds;

    match spec_dec_u64(s, i) {
        Some((n, j1)) => {
            lemma_enc_dec_u64(s, i);
            if j1 + n as int <= s.len() {
                let b = s.subrange(j1, j1 + n as int);
                assert(b.len() as u64 == n);
                assert(s.subrange(i, j1 + n as int) =~= s.subrange(i, j1) + b);
            }
        },
        None => {},
    }
}

/// One choice: its label byte, then its content payload.
pub open spec fn spec_enc_choice(c: ChoiceView) -> Seq<u8> {
    seq![c.label] + spec_enc_bytes(c.content)
}

pub open spec fn spec_dec_choice(s: Seq<u8>, i: int) -> Option<(ChoiceView, int)> {
    match spec_dec_u8(s, i) {
        Some((l, j1)) => match spec_dec_bytes(s, j1) {
            Some((b, j2)) => Some((ChoiceView { label: l, content: b }, j2)),
            None => None,
        },
        None => None,
    }
}

pub proof fn lemma_enc_dec_choice(s: Seq<u8>, i: int)
    requires
        0 <= i,
    ensures
        spec_dec_choice(s, i) matches Some((c, j)) ==> i <= j <= s.len() && s.subrange(i, j)
            == spec_enc_choice(c),
{
    match spec_dec_u8(s, i) {
        Some((l, j1)) => {
            lemma_enc_dec_bytes(s, j1);
            match spec_dec_bytes(s, j1) {
                Some((b, j2)) => {
                    assert(s.subrange(i, j1) =~= seq![l]);
                    assert(s.subrange(i, j2) =~= s.subrange(i, j1) + s.subrange(j1, j2));
                },
                None => {},
            }
        },
        None => {},
    }
}

/// The back-to-back encodings of a question's choices.
pub open spec fn spec_enc_choices(cs: Seq<ChoiceView>) -> Seq<u8>
    decreases cs.len(),
{
    if cs.len() == 0 {
        Seq::empty()
    } else {
        spec_enc_choice(cs[0]) + spec_enc_choices(cs.drop_first())
    }
}

pub open spec fn spec_dec_choices(s: Seq<u8>, i: int, n: int, acc: Seq<ChoiceView>) -> Option<
    (Seq<ChoiceView>, int),
>
    decreases n,
{
    if n <= 0 {
        Some((acc, i))
    } else {
        match spec_dec_choice(s, i) {
            Some((c, j)) => spec_dec_choices(s, j, n - 1, acc.push(c)),
            None => None,
        }
    }
}

pub proof fn lemma_enc_dec_choices(s: Seq<u8>, i: int, n: int, acc: Seq<ChoiceView>)
    requires
        0 <= i <= s.len(),
        0 <= n,
    ensures
        spec_dec_choices(s, i, n, acc) matches Some((cs, j)) ==> i <= j <= s.len() && cs.len()
            == acc.len() + n && cs.subrange(0, acc.len() as int) == acc && s.subrange(i, j)
            == spec_enc_choices(cs.subrange(acc.len() as int, cs.len() as int)),
    decreases n,
{
    if n <= 0 {
        assert(acc.subrange(0, acc.len() as int) =~= acc);
        assert(s.subrange(i, i) =~= Seq::<u8>::empty());
        assert(spec_enc_choices(acc.subrange(acc.len() as int, acc.len() as int)) =~= Seq::<
            u8,
        >::empty());
    } else {
        match spec_dec_choice(s, i) {
            Some((c, j1)) => {
                lemma_enc_dec_choice(s, i);
                lemma_enc_dec_choices(s, j1, n - 1, acc.push(c));
                match spec_dec_choices(s, j1, n - 1, acc.push(c)) {
                    Some((cs, j)) => {
                        assert(cs.subrange(0, acc.len() as int + 1) == acc.push(c));
                        assert(cs.subrange(0, acc.len() as int) =~= acc) by {
                            assert(forall|m: int|
                                0 <= m < acc.len() ==> cs.subrange(0, acc.len() as int)[m]
                                    == #[trigger] cs.subrange(0, acc.len() as int + 1)[m]);
                        }
                        let rest = cs.subrange(acc.len() as int, cs.len() as int);
                        let rest1 = cs.subrange(acc.len() as int + 1, cs.len() as int);
                        assert(cs[acc.len() as int] == acc.push(c)[acc.len() as int]);
                        assert(rest[0] == c);
                        assert(rest.drop_first() =~= rest1);
                        assert(spec_enc_choices(rest) == spec_enc_choice(c) + spec_enc_choices(
                            rest1,
                        ));
                        assert(s.subrange(i, j) =~= s.subrange(i, j1) + s.subrange(j1, j));
                    },
                    None => {},
                }
            },
            None => {},
        }
    }
}

/// One question: a variant tag, the text payload, then the
/// variant-specific fields.
pub open spec fn spec_enc_question(q: QuestionView) -> Seq<u8> {
    match q {
        QuestionView::SingleAns { text, choices, ans } => seq![0u8] + spec_enc_bytes(text)
            + spec_enc_u64(choices.len() as u64) + spec_enc_choices(choices) + seq![ans],
        QuestionView::MultiAns { text, choices, ans } => seq![1u8] + spec_enc_bytes(text)
            + spec_enc_u64(choices.len() as u64) + spec_enc_choices(choices) + spec_enc_bytes(ans),
        QuestionView::TrueOrFalse { text, ans } => seq![2u8] + spec_enc_bytes(text)
            + spec_enc_bool(ans),
    }
}

pub open spec fn spec_dec_question(s: Seq<u8>, i: int) -> Option<(QuestionView, int)> {
    match spec_dec_u8(s, i) {
        Some((tag, j0)) => if tag == 0 {
            match spec_dec_bytes(s, j0) {
                Some((text, j1)) => match spec_dec_u64(s, j1) {
                    Some((n, j2)) => match spec_dec_choices(s, j2, n as int, Seq::empty()) {
                        Some((cs, j3)) => match spec_dec_u8(s, j3) {
                            Some((ans, j4)) => Some(
                                (QuestionView::SingleAns { text, choices: cs, ans }, j4),
                            ),
                            None => None,
                        },
                        None => None,
                    },
                    None => None,
                },
                None => None,
            }
        } else if tag == 1 {
            match spec_dec_bytes(s, j0) {
                Some((text, j1)) => match spec_dec_u64(s, j1) {
                    Some((n, j2)) => match spec_dec_choices(s, j2, n as int, Seq::empty()) {
                        Some((cs, j3)) => match spec_dec_bytes(s, j3) {
                            Some((ans, j4)) => Some(
                                (QuestionView::MultiAns { text, choices: cs, ans }, j4),
                            ),
                            None => None,
                        },
                        None => None,
                    },
                    None => None,
                },
                None => None,
            }
        } else if tag == 2 {
            match spec_dec_bytes(s, j0) {
                Some((text, j1)) => match spec_dec_bool(s, j1) {
                    Some((ans, j2)) => Some((QuestionView::TrueOrFalse { text, ans }, j2)),
                    None => None,
                },
                None => None,
            }
        } else {
            None
        },
        None => None,
    }
}

pub proof fn lemma_enc_dec_question(s: Seq<u8>, i: int)
    requires
        0 <= i,
    ensures
        spec_dec_question(s, i) matches Some((q, j)) ==> i <= j <= s.len() && s.subrange(i, j)
            == spec_enc_question(q),
{
    broadcast use lemma_enc_u64_len, lemma_dec_u64_bounds;

    match spec_dec_u8(s, i) {
        Some((tag, j0)) => {
            assert(s.subrange(i, j0) =~= seq![tag]);
            lemma_enc_dec_bytes(s, j0);
            if tag == 0 || tag == 1 {
                match spec_dec_bytes(s, j0) {
                    Some((text, j1)) => {
                        match spec_dec_u64(s, j1) {
                            Some((n, j2)) => {
                                lemma_enc_dec_u64(s, j1);
                                lemma_enc_dec_choices(s, j2, n as int, Seq::empty());
                                match spec_dec_choices(s, j2, n as int, Seq::<ChoiceView>::empty()) {
                                    Some((cs, j3)) => {
                                        assert(cs.subrange(0, cs.len() as int) =~= cs);
                                        assert(cs.len() as u64 == n);
                                        if tag == 0 {
                                            match spec_dec_u8(s, j3) {
                                                Some((ans, j4)) => {
                                                    assert(s.subrange(j3, j4) =~= seq![ans]);
                                                    assert(s.subrange(i, j4) =~= seq![tag]
                                                        + s.subrange(j0, j1) + s.subrange(j1, j2)
                                                        + s.subrange(j2, j3) + seq![ans]);
                                                },
                                                None => {},
                                            }
                                        } else {
                                            lemma_enc_dec_bytes(s, j3);
                                            match spec_dec_bytes(s, j3) {
                                                Some((ans, j4)) => {
                                                    assert(s.subrange(i, j4) =~= seq![tag]
                                                        + s.subrange(j0, j1) + s.subrange(j1, j2)
                                                        + s.subrange(j2, j3) + s.subrange(j3, j4));
                                                },
                                                None => {},
                                            }
                                        }
                                    },
                                    None => {},
                                }
                            },
                            None => {},
                        }
                    },
                    None => {},
                }
            } else if tag == 2 {
                match spec_dec_bytes(s, j0) {
                    Some((text, j1)) => {
                        match spec_dec_bool(s, j1) {
                            Some((ans, j2)) => {
                                assert(s.subrange(j1, j2) =~= spec_enc_bool(ans));
                                assert(s.subrange(i, j2) =~= seq![tag] + s.subrange(j0, j1)
                                    + s.subrange(j1, j2));
                            },
                            None => {},
                        }
                    },
                    None => {},
                }
            }
        },
        None => {},
    }
}

/// The back-to-back encodings of the bank's questions.
pub open spec fn spec_enc_questions(qs: Seq<QuestionView>) -> Seq<u8>
    decreases qs.len(),
{
    if qs.len() == 0 {
        Seq::empty()
    } else {
        spec_enc_question(qs[0]) + spec_enc_questions(qs.drop_first())
    }
}

pub open spec fn spec_dec_questions(s: Seq<u8>, i: int, n: int, acc: Seq<QuestionView>) -> Option<
    (Seq<QuestionView>, int),
>
    decreases n,
{
    if n <= 0 {
        Some((acc, i))
    } else {
        match spec_dec_question(s, i) {
            Some((q, j)) => spec_dec_questions(s, j, n - 1, acc.push(q)),
            None => None,
        }
    }
}

pub proof fn lemma_enc_dec_questions(s: Seq<u8>, i: int, n: int, acc: Seq<QuestionView>)
    requires
        0 <= i <= s.len(),
        0 <= n,
    ensures
        spec_dec_questions(s, i, n, acc) matches Some((qs, j)) ==> i <= j <= s.len() && qs.len()
            == acc.len() + n && qs.subrange(0, acc.len() as int) == acc && s.subrange(i, j)
            == spec_enc_questions(qs.subrange(acc.len() as int, qs.len() as int)),
    decreases n,
{
    if n <= 0 {
        assert(acc.subrange(0, acc.len() as int) =~= acc);
        assert(s.subrange(i, i) =~= Seq::<u8>::empty());
        assert(spec_enc_questions(acc.subrange(acc.len() as int, acc.len() as int)) =~= Seq::<
            u8,
        >::empty());
    } else {
        match spec_dec_question(s, i) {
            Some((q, j1)) => {
                lemma_enc_dec_question(s, i);
                lemma_enc_dec_questions(s, j1, n - 1, acc.push(q));
                match spec_dec_questions(s, j1, n - 1, acc.push(q)) {
                    Some((qs, j)) => {
                        assert(qs.subrange(0, acc.len() as int + 1) == acc.push(q));
                        assert(qs.subrange(0, acc.len() as int) =~= acc) by {
                            assert(forall|m: int|
                                0 <= m < acc.len() ==> qs.subrange(0, acc.len() as int)[m]
                                    == #[trigger] qs.subrange(0, acc.len() as int + 1)[m]);
                        }
                        let rest = qs.subrange(acc.len() as int, qs.len() as int);
                        let rest1 = qs.subrange(acc.len() as int + 1, qs.len() as int);
                        assert(qs[acc.len() as int] == acc.push(q)[acc.len() as int]);
                        assert(rest[0] == q);
                        assert(rest.drop_first() =~= rest1);
                        assert(spec_enc_questions(rest) == spec_enc_question(q)
                            + spec_enc_questions(rest1));
                        assert(s.subrange(i, j) =~= s.subrange(i, j1) + s.subrange(j1, j));
                    },
                    None => {},
                }
            },
            None => {},
        }
    }
}

/// The bank format: the question count, then each question in order.
pub open spec fn spec_enc_bank(qs: Seq<QuestionView>) -> Seq<u8> {
    spec_enc_u64(qs.len() as u64) + spec_enc_questions(qs)
}

pub open spec fn spec_dec_bank(s: Seq<u8>, i: int) -> Option<(Seq<QuestionView>, int)> {
    match spec_dec_u64(s, i) {
        Some((n, j)) => spec_dec_questions(s, j, n as int, Seq::empty()),
        None => None,
    }
}

/// Law: every byte string that decodes as a complete question bank
/// re-encodes, byte for byte, to itself: the bank format is canonical.
pub proof fn lemma_bank_round_trip(s: Seq<u8>)
    ensures
        spec_dec_bank(s, 0) matches Some((qs, j)) ==> (j == s.len() ==> spec_enc_bank(qs) == s),
{
    broadcast use lemma_enc_u64_len, lemma_dec_u64_bounds;

    match spec_dec_u64(s, 0) {
        Some((n, j0)) => {
            lemma_enc_dec_u64(s, 0);
            lemma_enc_dec_questions(s, j0, n as int, Seq::empty());
            match spec_dec_questions(s, j0, n as int, Seq::<QuestionView>::empty()) {
                Some((qs, j)) => {
                    if j == s.len() {
                        assert(qs.subrange(0, qs.len() as int) =~= qs);
                        assert(qs.len() as u64 == n);
                        assert(s =~= s.subrange(0, j0) + s.subrange(j0, j));
                    }
                },
                None => {},
            }
        },
        None => {},
    }
}

pub proof fn lemma_enc_choices_push(l: Seq<ChoiceView>, c: ChoiceView)
    ensures
        spec_enc_choices(l.push(c)) == spec_enc_choices(l) + spec_enc_choice(c),
    decreases l.len(),
{
    if l.len() == 0 {
        assert(l.push(c).drop_first() =~= l);
        assert(spec_enc_choices(l.push(c)) =~= spec_enc_choices(l) + spec_enc_choice(c));
    } else {
        assert(l.push(c)[0] == l[0]);
        assert(l.push(c).drop_first() =~= l.drop_first().push(c));
        lemma_enc_choices_push(l.drop_first(), c);
        assert(spec_enc_choices(l.push(c)) =~= spec_enc_choices(l) + spec_enc_choice(c));
    }
}

pub proof fn lemma_enc_questions_push(l: Seq<QuestionView>, q: QuestionView)
    ensures
        spec_enc_questions(l.push(q)) == spec_enc_questions(l) + spec_enc_question(q),
    decreases l.len(),
{
    if l.len() == 0 {
        assert(l.push(q).drop_first() =~= l);
        assert(spec_enc_questions(l.push(q)) =~= spec_enc_questions(l) + spec_enc_question(q));
    } else {
        assert(l.push(q)[0] == l[0]);
        assert(l.push(q).drop_first() =~= l.drop_first().push(q));
        lemma_enc_questions_push(l.drop_first(), q);
        assert(spec_enc_questions(l.push(q)) =~= spec_enc_questions(l) + spec_enc_question(q));
    }
}

/// Appends an opaque byte payload.
fn enc_bytes(b: &Vec<u8>, out: &mut Vec<u8>)
    ensures
        final(out)@ == old(out)@ + spec_enc_bytes(b@),
{
    broadcast use lemma_enc_u64_len;

    enc_u64(b.len() as u64, out);
    let ghost base = out@;
    let mut i: usize = 0;
    while i < b.len()
        invariant
            i <= b@.len(),
            out@ == base + b@.take(i as int),
        decreases b@.len() - i,
    {
        out.push(b[i]);
        proof {
            assert(out@ =~= base + b@.take(i as int + 1));
        }
        i += 1;
    }
    proof {
        assert(b@.take(b@.len() as int) =~= b@);
        assert(out@ =~= old(out)@ + spec_enc_bytes(b@));
    }
}

/// Reads back an opaque byte payload.
#[verifier::loop_isolation(false)]
fn dec_bytes(buf: &Vec<u8>, pos: usize) -> (r: Option<(Vec<u8>, usize)>)
    ensures
        match r {
            Some((b, j)) => spec_dec_bytes(buf@, pos as int) == Some((b@, j as int)),
            None => spec_dec_bytes(buf@, pos as int) is None,
        },
{
    broadcast use lemma_dec_u64_bounds;

    let (n, start) = match dec_u64(buf, pos) {
        Some(p) => p,
        None => {
            return None;
        },
    };
    if ((buf.len() - start) as u64) < n {
        return None;
    }
    let len = n as usize;
    let mut b: Vec<u8> = Vec::new();
    let mut i: usize = 0;
    while i < len
        invariant
            i <= len,
            b@ == buf@.subrange(start as int, start as int + i),
        decreases len - i,
    {
        b.push(buf[start + i]);
        proof {
            assert(b@ =~= buf@.subrange(start as int, start as int + i + 1));
        }
        i += 1;
    }
    Some((b, start + len))
}

/// Appends one choice.
fn enc_choice(c: &Choice, out: &mut Vec<u8>)
    ensures
        final(out)@ == old(out)@ + spec_enc_choice(c@),
{
    out.push(c.label);
    enc_bytes(&c.content, out);
    proof {
        assert(out@ =~= old(out)@ + spec_enc_choice(c@));
    }
}

/// Reads back one choice.
fn dec_choice(buf: &Vec<u8>, pos: usize) -> (r: Option<(Choice, usize)>)
    ensures
        match r {
            Some((c, j)) => spec_dec_choice(buf@, pos as int) == Some((c@, j as int)),
            None => spec_dec_choice(buf@, pos as int) is None,
        },
{
    if pos >= buf.len() {
        return None;
    }
    let label = buf[pos];
    match dec_bytes(buf, pos + 1) {
        Some((content, j)) => Some((Choice { label, content }, j)),
        None => None,
    }
}

/// Appends a question's choices, in order.
fn enc_choices(cs: &Vec<Choice>, out: &mut Vec<u8>)
    ensures
        final(out)@ == old(out)@ + spec_enc_choices(cs@.map_values(|c: Choice| c@)),
{
    let ghost full = cs@.map_values(|c: Choice| c@);
    let ghost base = out@;
    let mut i: usize = 0;
    while i < cs.len()
        invariant
            i <= cs@.len(),
            full == cs@.map_values(|c: Choice| c@),
            base == old(out)@,
            out@ == base + spec_enc_choices(full.take(i as int)),
        decreases cs@.len() - i,
    {
        enc_choice(&cs[i], out);
        proof {
            assert(full[i as int] == cs@[i as int]@);
            lemma_enc_choices_push(full.take(i as int), full[i as int]);
            assert(full.take(i as int).push(full[i as int]) =~= full.take(i as int + 1));
            assert(out@ =~= base + spec_enc_choices(full.take(i as int + 1)));
        }
        i += 1;
    }
    proof {
        assert(full.take(full.len() as int) =~= full);
    }
}

/// Reads back `n` choices.
#[verifier::loop_isolation(false)]
fn dec_choices(buf: &Vec<u8>, pos: usize, n: u64) -> (r: Option<(Vec<Choice>, usize)>)
    ensures
        match r {
            Some((cs, j)) => spec_dec_choices(buf@, pos as int, n as int, Seq::empty()) == Some(
                (cs@.map_values(|c: Choice| c@), j as int),
            ),
            None => spec_dec_choices(buf@, pos as int, n as int, Seq::empty()) is None,
        },
{
    let mut l: Vec<Choice> = Vec::new();
    let mut cur: usize = pos;
    let mut rem: u64 = n;
    proof {
        assert(l@.map_values(|c: Choice| c@) =~= Seq::<ChoiceView>::empty());
    }
    while rem > 0
        invariant
            spec_dec_choices(buf@, pos as int, n as int, Seq::empty()) == spec_dec_choices(
                buf@,
                cur as int,
                rem as int,
                l@.map_values(|c: Choice| c@),
            ),
        decreases rem,
    {
        match dec_choice(buf, cur) {
            Some((c, j)) => {
                proof {
                    assert(l@.push(c).map_values(|x: Choice| x@) =~= l@.map_values(
                        |x: Choice| x@,
                    ).push(c@));
                }
                l.push(c);
                cur = j;
                rem = rem - 1;
            },
            None => {
                return None;
            },
        }
    }
    Some((l, cur))
}

/// Appends one question.
fn enc_question(q: &Question, out: &mut Vec<u8>)
    ensures
        final(out)@ == old(out)@ + spec_enc_question(q@),
{
    match q {
        Question::SingleAns { text, choices, ans } => {
            out.push(0);
            enc_bytes(text, out);
            enc_u64(choices.len() as u64, out);
            enc_choices(choices, out);
            out.push(*ans);
            proof {
                assert(out@ =~= old(out)@ + spec_enc_question(q@));
            }
        },
        Question::MultiAns { text, choices, ans } => {
            out.push(1);
            enc_bytes(text, out);
            enc_u64(choices.len() as u64, out);
            enc_choices(choices, out);
            enc_bytes(ans, out);
            proof {
                assert(out@ =~= old(out)@ + spec_enc_question(q@));
            }
        },
        Question::TrueOrFalse { text, ans } => {
            out.push(2);
            enc_bytes(text, out);
            out.push(if *ans { 1 } else { 0 });
            proof {
                assert(out@ =~= old(out)@ + spec_enc_question(q@));
            }
        },
    }
}

/// Reads back one question.
fn dec_question(buf: &Vec<u8>, pos: usize) -> (r: Option<(Question, usize)>)
    ensures
        match r {
            Some((q, j)) => spec_dec_question(buf@, pos as int) == Some((q@, j as int)),
            None => spec_dec_question(buf@, pos as int) is None,
        },
{
    if pos >= buf.len() {
        return None;
    }
    let tag = buf[pos];
    if tag > 2 {
        return None;
    }
    let (text, j1) = match dec_bytes(buf, pos + 1) {
        Some(p) => p,
        None => {
            return None;
        },
    };
    if tag == 2 {
        if j1 >= buf.len() {
            return None;
        }
        let b = buf[j1];
        if b == 1 {
            return Some((Question::TrueOrFalse { text, ans: true }, j1 + 1));
        }
        if b == 0 {
            return Some((Question::TrueOrFalse { text, ans: false }, j1 + 1));
        }
        return None;
    }
    let (n, j2) = match dec_u64(buf, j1) {
        Some(p) => p,
        None => {
            return None;
        },
    };
    let (choices, j3) = match dec_choices(buf, j2, n) {
        Some(p) => p,
        None => {
            return None;
        },
    };
    if tag == 0 {
        if j3 >= buf.len() {
            return None;
        }
        let ans = buf[j3];
        Some((Question::SingleAns { text, choices, ans }, j3 + 1))
    } else {
        let (ans, j4) = match dec_bytes(buf, j3) {
            Some(p) => p,
            None => {
                return None;
            },
        };
        Some((Question::MultiAns { text, choices, ans }, j4))
    }
}

/// Serializes a whole question bank.
pub fn encode_bank(bank: &Vec<Question>) -> (out: Vec<u8>)
    ensures
        out@ == spec_enc_bank(bank@.map_values(|q: Question| q@)),
{
    let ghost full = bank@.map_values(|q: Question| q@);
    let mut out: Vec<u8> = Vec::new();
    enc_u64(bank.len() as u64, &mut out);
    let ghost base = out@;
    let mut i: usize = 0;
    while i < bank.len()
        invariant
            i <= bank@.len(),
            full == bank@.map_values(|q: Question| q@),
            out@ == base + spec_enc_questions(full.take(i as int)),
            base == spec_enc_u64(bank@.len() as u64),
        decreases bank@.len() - i,
    {
        enc_question(&bank[i], &mut out);
        proof {
            assert(full[i as int] == bank@[i as int]@);
            lemma_enc_questions_push(full.take(i as int), full[i as int]);
            assert(full.take(i as int).push(full[i as int]) =~= full.take(i as int + 1));
            assert(out@ =~= base + spec_enc_questions(full.take(i as int + 1)));
        }
        i += 1;
    }
    proof {
        assert(full.take(full.len() as int) =~= full);
        assert(out@ =~= spec_enc_bank(full));
    }
    out
}

/// Reads a whole question bank back; fails unless the bytes are one
/// complete, canonical bank.
#[verifier::loop_isolation(false)]
pub fn decode_bank(buf: &Vec<u8>) -> (r: Option<Vec<Question>>)
    ensures
        match r {
            Some(b) => spec_dec_bank(buf@, 0) == Some(
                (b@.map_values(|q: Question| q@), buf@.len() as int),
            ),
            None => spec_dec_bank(buf@, 0) matches Some((qs, j)) ==> j != buf@.len(),
        },
{
    let (n, start) = match dec_u64(buf, 0) {
        Some(p) => p,
        None => {
            return None;
        },
    };
    let mut l: Vec<Question> = Vec::new();
    let mut cur: usize = start;
    let mut rem: u64 = n;
    proof {
        assert(l@.map_values(|q: Question| q@) =~= Seq::<QuestionView>::empty());
    }
    while rem > 0
        invariant
            spec_dec_questions(buf@, start as int, n as int, Seq::empty()) == spec_dec_questions(
                buf@,
                cur as int,
                rem as int,
                l@.map_values(|q: Question| q@),
            ),
        decreases rem,
    {
        match dec_question(buf, cur) {
            Some((q, j)) => {
                proof {
                    assert(l@.push(q).map_values(|x: Question| x@) =~= l@.map_values(
                        |x: Question| x@,
                    ).push(q@));
                }
                l.push(q);
                cur = j;
                rem = rem - 1;
            },
            None => {
                return None;
            },
        }
    }
    if cur != buf.len() {
        return None;
    }
    Some(l)
}

} // verus!
