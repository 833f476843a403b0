//! The immutable question bank: data types and their well-formedness.

use vstd::prelude::*;

verus! {

/// One selectable choice of a single- or multi-choice question.
#[derive(Debug, Clone, PartialEq, Eq)]
pub struct Choice {
    /// The short label the user types to pick this choice (an ASCII letter).
    pub label: u8,
    /// Opaque display payload (UTF-8 bytes); the engine never interprets it.
    pub content: Vec<u8>,
}

/// One question of the bank.  Questions are immutable once loaded and are
/// referred to only through their 1-based position in the bank.
#[derive(Debug, Clone, PartialEq, Eq)]
pub enum Question {
    SingleAns { text: Vec<u8>, choices: Vec<Choice>, ans: u8 },
    MultiAns { text: Vec<u8>, choices: Vec<Choice>, ans: Vec<u8> },
    TrueOrFalse { text: Vec<u8>, ans: bool },
}

/// The mathematical reading of a choice.
#[verifier::ext_equal]
pub ghost struct ChoiceView {
    pub label: u8,
    pub content: Seq<u8>,
}

/// The mathematical reading of a question.
#[verifier::ext_equal]
pub ghost enum QuestionView {
    SingleAns { text: Seq<u8>, choices: Seq<ChoiceView>, ans: u8 },
    MultiAns { text: Seq<u8>, choices: Seq<ChoiceView>, ans: Seq<u8> },
    TrueOrFalse { text: Seq<u8>, ans: bool },
}

impl View for Choice {
    type V = ChoiceView;

    open spec fn view(&self) -> ChoiceView {
        ChoiceView { label: self.label, content: self.content@ }
    }
}

impl View for Question {
    type V = QuestionView;

    open spec fn view(&self) -> QuestionView {
        match *self {
            Question::SingleAns { text, choices, ans } => QuestionView::SingleAns {
                text: text@,
                choices: choices@.map_values(|c: Choice| c@),
                ans,
            },
            Question::MultiAns { text, choices, ans } => QuestionView::MultiAns {
                text: text@,
                choices: choices@.map_values(|c: Choice| c@),
                ans: ans@,
            },
            Question::TrueOrFalse { text, ans } => QuestionView::TrueOrFalse { text: text@, ans },
        }
    }
}

/// The labels of a choice list, in order.
pub open spec fn labels_of(cs: Seq<Choice>) -> Seq<u8> {
    cs.map_values(|c: Choice| c.label)
}

/// No two choices of one question share a label.
pub open spec fn labels_unique(cs: Seq<Choice>) -> bool {
    forall|i: int, j: int|
        0 <= i < cs.len() && 0 <= j < cs.len() && i != j ==> cs[i].label != cs[j].label
}

impl Question {
    /// Well-formedness of a bank entry: labels are unique and every
    /// correct label names an existing choice.
    pub open spec fn wf(&self) -> bool {
        match *self {
            Question::SingleAns { text: _, choices, ans } => {
                &&& labels_unique(choices@)
                &&& labels_of(choices@).contains(ans)
            },
            Question::MultiAns { text: _, choices, ans } => {
                &&& labels_unique(choices@)
                &&& ans@.no_duplicates()
                &&& forall|i: int|
                    0 <= i < ans@.len() ==> labels_of(choices@).contains(#[trigger] ans@[i])
            },
            Question::TrueOrFalse { .. } => true,
        }
    }
}

/// An index of the choice that carries label `l` (meaningful when the
/// label occurs; unique under `labels_unique`).
pub open spec fn index_of_label(cs: Seq<Choice>, l: u8) -> int {
    choose|i: int| 0 <= i < cs.len() && cs[i].label == l
}

/// Whether `content` is the content of one of the correct labels of the
/// original choice list.
pub open spec fn correct_content(orig: Seq<Choice>, ans: Seq<u8>, content: Seq<u8>) -> bool {
    exists|j: int, k: int|
        0 <= j < ans.len() && 0 <= k < orig.len() && orig[k].label == ans[j] && orig[k].content@
            == content
}

/// Byte-for-byte equality of two payloads.
fn bytes_eq(a: &Vec<u8>, b: &Vec<u8>) -> (r: bool)
    ensures
        r == (a@ == b@),
{
    if a.len() != b.len() {
        return false;
    }
    let mut i: usize = 0;
    while i < a.len()
        invariant
            i <= a@.len(),
            a@.len() == b@.len(),
            forall|j: int| 0 <= j < i ==> a@[j] == b@[j],
        decreases a@.len() - i,
    {
        if a[i] != b[i] {
            return false;
        }
        i += 1;
    }
    proof {
        assert(a@ =~= b@);
    }
    true
}

/// The label that, after a relabelling of the choices, names the given
/// content: the first choice whose content equals it, by content equality.
pub fn remap_label(choices: &Vec<Choice>, content: &Vec<u8>) -> (r: Option<u8>)
    ensures
        match r {
            Some(l) => exists|i: int|
                0 <= i < choices@.len() && (#[trigger] choices@[i]).label == l
                    && choices@[i].content@ == content@ && (forall|j: int|
                    0 <= j < i ==> choices@[j].content@ != content@),
            None => forall|i: int|
                0 <= i < choices@.len() ==> (#[trigger] choices@[i]).content@ != content@,
        },
{
    let mut i: usize = 0;
    while i < choices.len()
        invariant
            i <= choices@.len(),
            forall|j: int| 0 <= j < i ==> (#[trigger] choices@[j]).content@ != content@,
        decreases choices@.len() - i,
    {
        if bytes_eq(&choices[i].content, content) {
            return Some(choices[i].label);
        }
        i += 1;
    }
    None
}

/// Finds the first choice carrying label `l`.
fn find_label(choices: &Vec<Choice>, l: u8) -> (r: Option<usize>)
    ensures
        match r {
            Some(i) => i < choices@.len() && choices@[i as int].label == l,
            None => !labels_of(choices@).contains(l),
        },
{
    let mut i: usize = 0;
    while i < choices.len()
        invariant
            i <= choices@.len(),
            forall|j: int| 0 <= j < i ==> (#[trigger] choices@[j]).label != l,
        decreases choices@.len() - i,
    {
        if choices[i].label == l {
            return Some(i);
        }
        i += 1;
    }
    proof {
        if labels_of(choices@).contains(l) {
            let w = choose|w: int| 0 <= w < labels_of(choices@).len() && labels_of(choices@)[w] == l;
            assert(choices@[w].label == l);
            assert(false);
        }
    }
    None
}

/// After the presentation layer relabels the choices, the label that is
/// correct for a single-choice question: the one now attached to the
/// originally-correct content.  Correctness is content-based, not
/// position-based.
pub fn remapped_correct_single(orig: &Vec<Choice>, shuffled: &Vec<Choice>, ans: u8) -> (r: Option<
    u8,
>)
    requires
        labels_unique(orig@),
        labels_of(orig@).contains(ans),
    ensures
        match r {
            Some(l) => exists|i: int|
                0 <= i < shuffled@.len() && (#[trigger] shuffled@[i]).label == l
                    && shuffled@[i].content@ == orig@[index_of_label(orig@, ans)].content@ && (
                forall|j: int|
                    0 <= j < i ==> shuffled@[j].content@ != orig@[index_of_label(
                        orig@,
                        ans,
                    )].content@),
            None => forall|i: int|
                0 <= i < shuffled@.len() ==> (#[trigger] shuffled@[i]).content@ != orig@[
                    index_of_label(orig@, ans)].content@,
        },
{
    proof {
        let w = choose|w: int| 0 <= w < labels_of(orig@).len() && labels_of(orig@)[w] == ans;
        assert(orig@[w].label == ans);
    }
    let k = match find_label(orig, ans) {
        Some(k) => k,
        None => {
            proof {
                assert(false);
            }
            0
        },
    };
    proof {
        let ki = index_of_label(orig@, ans);
        assert(0 <= ki < orig@.len() && orig@[ki].label == ans);
        assert(ki == k as int);
    }
    remap_label(shuffled, &orig[k].content)
}

/// Whether a relabelled choice's content belongs to the original
/// correct-label set.
#[verifier::loop_isolation(false)]
fn is_correct_content(orig: &Vec<Choice>, ans: &Vec<u8>, content: &Vec<u8>) -> (r: bool)
    ensures
        r == correct_content(orig@, ans@, content@),
{
    let mut j: usize = 0;
    while j < ans.len()
        invariant
            j <= ans@.len(),
            forall|jj: int, k: int|
                0 <= jj < j && 0 <= k < orig@.len() ==> !(orig@[k].label == ans@[jj]
                    && orig@[k].content@ == content@),
        decreases ans@.len() - j,
    {
        let mut k: usize = 0;
        while k < orig.len()
            invariant
                j < ans@.len(),
                k <= orig@.len(),
                forall|kk: int|
                    0 <= kk < k ==> !(orig@[kk].label == ans@[j as int] && orig@[kk].content@
                        == content@),
            decreases orig@.len() - k,
        {
            if orig[k].label == ans[j] && bytes_eq(&orig[k].content, content) {
                return true;
            }
            k += 1;
        }
        j += 1;
    }
    false
}

/// After the presentation layer relabels the choices, the labels that are
/// correct for a multi-choice question: those now attached to the
/// originally-correct contents, by content equality.
#[verifier::loop_isolation(false)]
pub fn remapped_correct_multi(orig: &Vec<Choice>, shuffled: &Vec<Choice>, ans: &Vec<u8>) -> (r: Vec<
    u8,
>)
    ensures
        forall|l: u8|
            r@.contains(l) <==> exists|i: int|
                0 <= i < shuffled@.len() && (#[trigger] shuffled@[i]).label == l && correct_content(
                    orig@,
                    ans@,
                    shuffled@[i].content@,
                ),
{
    let mut r: Vec<u8> = Vec::new();
    let mut i: usize = 0;
    while i < shuffled.len()
        invariant
            i <= shuffled@.len(),
            forall|l: u8|
                r@.contains(l) <==> exists|ii: int|
                    0 <= ii < i && (#[trigger] shuffled@[ii]).label == l && correct_content(
                        orig@,
                        ans@,
                        shuffled@[ii].content@,
                    ),
        decreases shuffled@.len() - i,
    {
        let ghost r0 = r@;
        if is_correct_content(orig, ans, &shuffled[i].content) {
            r.push(shuffled[i].label);
            proof {
                assert forall|l: u8|
                    r@.contains(l) <==> exists|ii: int|
                        0 <= ii < i + 1 && (#[trigger] shuffled@[ii]).label == l
                            && correct_content(orig@, ans@, shuffled@[ii].content@) by {
                    if r@.contains(l) {
                        let w = choose|w: int| 0 <= w < r@.len() && r@[w] == l;
                        if w < r0.len() {
                            assert(r0[w] == l);
                            assert(r0.contains(l));
                        } else {
                            assert(l == shuffled@[i as int].label);
                        }
                    }
                    if exists|ii: int|
                        0 <= ii < i + 1 && (#[trigger] shuffled@[ii]).label == l
                            && correct_content(orig@, ans@, shuffled@[ii].content@) {
                        let ii = choose|ii: int|
                            0 <= ii < i + 1 && (#[trigger] shuffled@[ii]).label == l
                                && correct_content(orig@, ans@, shuffled@[ii].content@);
                        if ii < i {
                            assert(r0.contains(l));
                            let w = choose|w: int| 0 <= w < r0.len() && r0[w] == l;
                            assert(r@[w] == l);
                        } else {
                            assert(r@[r0.len() as int] == l);
                        }
                    }
                }
            }
        } else {
            proof {
                assert forall|l: u8|
                    r@.contains(l) <==> exists|ii: int|
                        0 <= ii < i + 1 && (#[trigger] shuffled@[ii]).label == l
                            && correct_content(orig@, ans@, shuffled@[ii].content@) by {
                    if exists|ii: int|
                        0 <= ii < i + 1 && (#[trigger] shuffled@[ii]).label == l
                            && correct_content(orig@, ans@, shuffled@[ii].content@) {
                        let ii = choose|ii: int|
                            0 <= ii < i + 1 && (#[trigger] shuffled@[ii]).label == l
                                && correct_content(orig@, ans@, shuffled@[ii].content@);
                        assert(ii != i);
                    }
                }
            }
        }
        i += 1;
    }
    r
}

/// Relabels the choices for presentation: the label order is randomly
/// permuted while each position keeps its content, so what the user sees
/// under a label may change but the set of labels does not.
pub fn shuffle_choices(choices: &Vec<Choice>) -> (r: Vec<Choice>)
    ensures
        r@.len() == choices@.len(),
        forall|i: int|
            0 <= i < r@.len() ==> (#[trigger] r@[i]).content@ == choices@[i].content@,
        labels_of(r@).to_multiset() == labels_of(choices@).to_multiset(),
{
    let mut labels: Vec<u8> = Vec::new();
    let mut i: usize = 0;
    while i < choices.len()
        invariant
            i <= choices@.len(),
            labels@.len() == i,
            forall|j: int| 0 <= j < i ==> labels@[j] == (#[trigger] choices@[j]).label,
        decreases choices@.len() - i,
    {
        labels.push(choices[i].label);
        i += 1;
    }
    proof {
        assert(labels@ =~= labels_of(choices@));
    }
    crate::rng::shuffle_vec(&mut labels);
    let mut r: Vec<Choice> = Vec::new();
    let mut k: usize = 0;
    while k < choices.len()
        invariant
            k <= choices@.len(),
            labels@.len() == choices@.len(),
            labels@.to_multiset() == labels_of(choices@).to_multiset(),
            r@.len() == k,
            forall|j: int| 0 <= j < k ==> (#[trigger] r@[j]).content@ == choices@[j].content@,
            forall|j: int| 0 <= j < k ==> (#[trigger] r@[j]).label == labels@[j],
        decreases choices@.len() - k,
    {
        r.push(Choice { label: labels[k], content: choices[k].content.clone() });
        k += 1;
    }
    proof {
        assert(labels_of(r@) =~= labels@);
    }
    r
}

/// Builds a bank entry from one imported row: a stem, the choice contents
/// labelled from `A` on, and the answer labels -- one label gives a
/// single-choice question, several give a multi-choice one.
pub fn question_from_row(text: Vec<u8>, options: Vec<Vec<u8>>, ans: Vec<u8>) -> (q: Question)
    requires
        1 <= options@.len() <= 26,
        ans@.len() >= 1,
    ensures
        q@ == (if ans@.len() == 1 {
            QuestionView::SingleAns { text: text@, choices: row_choices(options@), ans: ans@[0] }
        } else {
            QuestionView::MultiAns { text: text@, choices: row_choices(options@), ans: ans@ }
        }),
{
    let ghost tv = text@;
    let ghost av = ans@;
    let mut choices: Vec<Choice> = Vec::new();
    let mut i: usize = 0;
    while i < options.len()
        invariant
            i <= options@.len(),
            options@.len() <= 26,
            choices@.len() == i,
            forall|j: int|
                0 <= j < i ==> (#[trigger] choices@[j])@ == (ChoiceView {
                    label: (65 + j) as u8,
                    content: options@[j]@,
                }),
        decreases options@.len() - i,
    {
        let opt = options[i].clone();
        proof {
            assert(options[i as int]@ == opt@);
        }
        choices.push(Choice { label: 65 + (i as u8), content: opt });
        i += 1;
    }
    proof {
        assert(choices@.map_values(|c: Choice| c@) =~= row_choices(options@));
    }
    if ans.len() == 1 {
        let a = ans[0];
        Question::SingleAns { text, choices, ans: a }
    } else {
        Question::MultiAns { text, choices, ans }
    }
}

/// The choices a row yields: contents in order, labelled from `A` on.
pub open spec fn row_choices(opts: Seq<Vec<u8>>) -> Seq<ChoiceView> {
    Seq::new(opts.len(), |i: int| ChoiceView { label: (65 + i) as u8, content: opts[i]@ })
}

} // verus!
