//! Answer normalization and matching, per question variant.

use vstd::prelude::*;

verus! {

/// ASCII upper-casing of one byte.
pub open spec fn upper(b: u8) -> u8 {
    if 97 <= b <= 122 {
        (b - 32) as u8
    } else {
        b
    }
}

/// ASCII upper-casing of a byte string.
pub open spec fn upper_seq(s: Seq<u8>) -> Seq<u8> {
    s.map_values(|b: u8| upper(b))
}

/// Executable ASCII upper-casing of one byte.
pub fn to_upper(b: u8) -> (r: u8)
    ensures
        r == upper(b),
{
    if 97 <= b && b <= 122 {
        b - 32
    } else {
        b
    }
}

/// A single-choice answer is correct iff the input is exactly the correct
/// label, compared case-insensitively.
pub fn check_single(input: &Vec<u8>, correct: u8) -> (r: bool)
    ensures
        r == (upper_seq(input@) == seq![upper(correct)]),
{
    let r = input.len() == 1 && to_upper(input[0]) == to_upper(correct);
    proof {
        if r {
            assert(upper_seq(input@) =~= seq![upper(correct)]);
        } else {
            if upper_seq(input@) == seq![upper(correct)] {
                assert(upper_seq(input@).len() == 1);
                assert(upper_seq(input@)[0] == upper(input@[0]));
                assert(upper_seq(input@)[0] == upper(correct));
                assert(false);
            }
        }
    }
    r
}

/// Whether byte `x` occurs in `v`.
fn contains_byte(v: &Vec<u8>, x: u8) -> (r: bool)
    ensures
        r == v@.contains(x),
{
    let mut i: usize = 0;
    while i < v.len()
        invariant
            i <= v@.len(),
            forall|j: int| 0 <= j < i ==> v@[j] != x,
        decreases v@.len() - i,
    {
        if v[i] == x {
            return true;
        }
        i += 1;
    }
    false
}

/// Whether `x` occurs among the upper-cased bytes of `v`.
fn contains_upper(v: &Vec<u8>, x: u8) -> (r: bool)
    ensures
        r == upper_seq(v@).contains(x),
{
    let mut i: usize = 0;
    while i < v.len()
        invariant
            i <= v@.len(),
            forall|j: int| 0 <= j < i ==> upper(#[trigger] v@[j]) != x,
        decreases v@.len() - i,
    {
        if to_upper(v[i]) == x {
            proof {
                assert(upper_seq(v@)[i as int] == upper(v@[i as int]));
            }
            return true;
        }
        i += 1;
    }
    proof {
        if upper_seq(v@).contains(x) {
            let w = choose|w: int| 0 <= w < upper_seq(v@).len() && upper_seq(v@)[w] == x;
            assert(upper(v@[w]) == x);
            assert(false);
        }
    }
    false
}

/// A multi-choice answer is correct iff the set of labels the user typed,
/// upper-cased -- order irrelevant, duplicates collapsed -- equals exactly
/// the correct-label set.
#[verifier::loop_isolation(false)]
pub fn check_multi(input: &Vec<u8>, correct: &Vec<u8>) -> (r: bool)
    ensures
        r == (upper_seq(input@).to_set() == correct@.to_set()),
{
    let ghost us = upper_seq(input@);
    let mut i: usize = 0;
    while i < input.len()
        invariant
            i <= input@.len(),
            forall|j: int| 0 <= j < i ==> correct@.contains(upper(#[trigger] input@[j])),
        decreases input@.len() - i,
    {
        if !contains_byte(correct, to_upper(input[i])) {
            proof {
                assert(us[i as int] == upper(input@[i as int]));
                assert(us.contains(upper(input@[i as int])));
                assert(us.to_set().contains(upper(input@[i as int])));
                assert(!correct@.to_set().contains(upper(input@[i as int])));
            }
            return false;
        }
        i += 1;
    }
    let mut j: usize = 0;
    while j < correct.len()
        invariant
            j <= correct@.len(),
            forall|jj: int| 0 <= jj < input@.len() ==> correct@.contains(
                upper(#[trigger] input@[jj]),
            ),
            forall|m: int| 0 <= m < j ==> us.contains(#[trigger] correct@[m]),
        decreases correct@.len() - j,
    {
        if !contains_upper(input, correct[j]) {
            proof {
                assert(correct@.to_set().contains(correct@[j as int]));
                assert(!us.to_set().contains(correct@[j as int]));
            }
            return false;
        }
        j += 1;
    }
    proof {
        assert(us.to_set() =~= correct@.to_set()) by {
            assert forall|x: u8| us.to_set().contains(x) implies correct@.to_set().contains(x) by {
                let w = choose|w: int| 0 <= w < us.len() && us[w] == x;
                assert(upper(input@[w]) == x);
            }
            assert forall|x: u8| correct@.to_set().contains(x) implies us.to_set().contains(x) by {
                let w = choose|w: int| 0 <= w < correct@.len() && correct@[w] == x;
            }
        }
    }
    true
}

/// Recognizes a true/false token: `t` or `f`, case-insensitively, nothing
/// else.  The claim it makes is returned; unrecognized input yields `None`
/// and must be re-prompted.
pub fn parse_tf(input: &Vec<u8>) -> (r: Option<bool>)
    ensures
        (r == Some(true)) == (upper_seq(input@) == seq![84u8]),
        (r == Some(false)) == (upper_seq(input@) == seq![70u8]),
{
    let r = if input.len() == 1 && to_upper(input[0]) == 84 {
        Some(true)
    } else if input.len() == 1 && to_upper(input[0]) == 70 {
        Some(false)
    } else {
        None
    };
    proof {
        if input@.len() == 1 {
            assert(upper_seq(input@)[0] == upper(input@[0]));
            if upper(input@[0]) == 84 {
                assert(upper_seq(input@) =~= seq![84u8]);
            }
            if upper(input@[0]) == 70 {
                assert(upper_seq(input@) =~= seq![70u8]);
            }
        }
        if upper_seq(input@) == seq![84u8] {
            assert(upper_seq(input@).len() == 1);
            assert(upper_seq(input@)[0] == upper(input@[0]));
        }
        if upper_seq(input@) == seq![70u8] {
            assert(upper_seq(input@).len() == 1);
            assert(upper_seq(input@)[0] == upper(input@[0]));
        }
    }
    r
}

/// Evaluates a true/false answer against the stored truth: `Some(correct)`
/// for a recognized token, `None` for anything else.
pub fn check_tf(input: &Vec<u8>, ans: bool) -> (r: Option<bool>)
    ensures
        upper_seq(input@) == seq![84u8] ==> r == Some(ans),
        upper_seq(input@) == seq![70u8] ==> r == Some(!ans),
        upper_seq(input@) != seq![84u8] && upper_seq(input@) != seq![70u8] ==> r is None,
{
    match parse_tf(input) {
        Some(claim) => if claim {
            Some(ans)
        } else {
            Some(!ans)
        },
        None => None,
    }
}

/// What the line reader does with one trimmed input line.
#[derive(Clone, Copy, Debug, PartialEq, Eq, Structural)]
pub enum InputAction {
    /// Print the current question's correct answer and re-prompt.
    Hint,
    /// Write a checkpoint, confirm, and re-prompt.
    Save,
    /// Re-prompt without any effect (an empty line during answer entry).
    Ignore,
    /// Hand the line on as an answer.
    Answer,
}

/// Recognizes the interactive control tokens ahead of normal answer
/// parsing: `h` asks for a hint, `s` for a checkpoint, both
/// case-insensitively; an empty line is ignored during answer entry
/// (`allow_empty`), but advances the press-enter-to-continue prompt.
pub fn classify_input(line: &Vec<u8>, allow_empty: bool) -> (r: InputAction)
    ensures
        r == (if line@ == Seq::<u8>::empty() && allow_empty {
            InputAction::Ignore
        } else if upper_seq(line@) == seq![72u8] {
            InputAction::Hint
        } else if upper_seq(line@) == seq![83u8] {
            InputAction::Save
        } else {
            InputAction::Answer
        }),
{
    let r = if line.len() == 0 && allow_empty {
        InputAction::Ignore
    } else if line.len() == 1 && to_upper(line[0]) == 72 {
        InputAction::Hint
    } else if line.len() == 1 && to_upper(line[0]) == 83 {
        InputAction::Save
    } else {
        InputAction::Answer
    };
    proof {
        if line@.len() == 0 {
            assert(line@ =~= Seq::<u8>::empty());
        }
        if line@.len() == 1 {
            assert(upper_seq(line@)[0] == upper(line@[0]));
            if upper(line@[0]) == 72 {
                assert(upper_seq(line@) =~= seq![72u8]);
            }
            if upper(line@[0]) == 83 {
                assert(upper_seq(line@) =~= seq![83u8]);
            }
        }
        if upper_seq(line@) == seq![72u8] {
            assert(upper_seq(line@)[0] == upper(line@[0]));
        }
        if upper_seq(line@) == seq![83u8] {
            assert(upper_seq(line@)[0] == upper(line@[0]));
        }
    }
    r
}

} // verus!
