//! User interaction: the step of the design the user is in, and what a key
//! press or a click on a board asks for.
use vstd::prelude::*;

verus! {

/// The step of the design the user is in.
#[derive(Debug, Clone, Copy, PartialEq, Eq, Structural)]
pub enum CurrentStep {
    SelectPoly,
    /// assigning boards of this variant
    AssignVariants(usize),
    MakePath,
}

/// The number of steps.
pub const N_STEPS: usize = 3;

/// All steps, in order.
pub struct Steps(pub [CurrentStep; N_STEPS]);

/// All steps, in order: selecting polyhedra, assigning variants (from
/// variant 0), making the path.
pub fn steps() -> (r: Steps)
    ensures
        r.0@ == seq![CurrentStep::SelectPoly, CurrentStep::AssignVariants(0), CurrentStep::MakePath],
{
    let r = Steps([CurrentStep::SelectPoly, CurrentStep::AssignVariants(0), CurrentStep::MakePath]);
    proof {
        assert(r.0@ =~= seq![CurrentStep::SelectPoly, CurrentStep::AssignVariants(0), CurrentStep::MakePath]);
    }
    r
}

/// What a key press asks for.
#[derive(Debug, Clone, Copy, PartialEq, Eq, Structural)]
pub enum KeyAction {
    /// turn the camera left
    RotateLeft,
    /// turn the camera right
    RotateRight,
    /// turn the camera up
    RotateUp,
    /// turn the camera down
    RotateDown,
    /// show the next polyhedron of the database in place of the last one
    NextPolyhedron,
    /// take the last polyhedron off, and tell the page
    PopPolyhedron,
    /// take the last crossing off the path
    PopPath,
    /// the step changed: tell the page
    StepChanged,
    /// complete the path
    CompletePath,
    /// the variant to assign changed to this one: tell the page
    CurrentVariant(usize),
    /// leave the last face of the path `n` edges on, and look at it
    PathJump(usize),
    /// nothing (the key is only logged)
    Nothing,
}

/// What a click on a board asks for.
#[derive(Debug, Clone, Copy, PartialEq, Eq, Structural)]
pub enum ClickAction {
    /// nothing
    Nothing,
    /// add the board's face to the path
    AddToPath,
    /// give the board this variant
    SetVariant(usize),
}

/// `k` is the run of `k.len()` digits of "0123456789" from digit `s` on.
pub open spec fn run_from(k: Seq<char>, s: int) -> bool {
    &&& 0 <= s
    &&& s + k.len() <= 10
    &&& forall|i: int| 0 <= i < k.len() ==> #[trigger] k[i] as int == '0' as int + s + i
}

/// `k` is a run of digits of "0123456789" (the empty run included).
pub open spec fn in_digits(k: Seq<char>) -> bool {
    exists|s: int| #[trigger] run_from(k, s)
}

/// The number that decimal digits `k` write.
pub open spec fn dec_value(k: Seq<char>) -> int
    decreases k.len(),
{
    if k.len() == 0 {
        0
    } else {
        dec_value(k.drop_last()) * 10 + (k.last() as int - '0' as int)
    }
}

/// `10` to the power `n`.
pub open spec fn pow10(n: nat) -> int
    decreases n,
{
    if n == 0 {
        1
    } else {
        10 * pow10((n - 1) as nat)
    }
}

/// Decimal digits write a number below `10` to the power of their count.
pub proof fn lemma_dec_bound(k: Seq<char>)
    requires
        forall|i: int| 0 <= i < k.len() ==> '0' as int <= #[trigger] k[i] as int <= '9' as int,
    ensures
        0 <= dec_value(k) < pow10(k.len()),
    decreases k.len(),
{
    if k.len() > 0 {
        let d = k.drop_last();
        assert forall|i: int| 0 <= i < d.len() implies '0' as int <= #[trigger] d[i] as int <= '9' as int by {
            assert(d[i] == k[i]);
        }
        lemma_dec_bound(d);
        assert(k.last() == k[k.len() - 1]);
    }
}

/// Powers of ten grow.
pub proof fn lemma_pow10_grows(a: nat, b: nat)
    requires
        a <= b,
    ensures
        1 <= pow10(a) <= pow10(b),
    decreases b,
{
    if b > 0 {
        if a < b {
            lemma_pow10_grows(a, (b - 1) as nat);
        } else {
            lemma_pow10_grows((a - 1) as nat, (b - 1) as nat);
        }
    }
}

/// In a run where each character follows the one before, character `j` is
/// `j` past the first.
pub proof fn lemma_consecutive(k: Seq<char>, j: int)
    requires
        0 <= j < k.len(),
        forall|u: int| 0 < u < k.len() ==> #[trigger] k[u] as int == k[u - 1] as int + 1,
    ensures
        k[j] as int == k[0] as int + j,
    decreases j,
{
    if j > 0 {
        lemma_consecutive(k, j - 1);
        assert(k[j] as int == k[j - 1] as int + 1);
    }
}

/// The named keys.
pub open spec fn arrow_left() -> Seq<char> {
    seq!['A', 'r', 'r', 'o', 'w', 'L', 'e', 'f', 't']
}

pub open spec fn arrow_right() -> Seq<char> {
    seq!['A', 'r', 'r', 'o', 'w', 'R', 'i', 'g', 'h', 't']
}

pub open spec fn arrow_up() -> Seq<char> {
    seq!['A', 'r', 'r', 'o', 'w', 'U', 'p']
}

pub open spec fn arrow_down() -> Seq<char> {
    seq!['A', 'r', 'r', 'o', 'w', 'D', 'o', 'w', 'n']
}

pub open spec fn backspace() -> Seq<char> {
    seq!['B', 'a', 'c', 'k', 's', 'p', 'a', 'c', 'e']
}

pub open spec fn enter() -> Seq<char> {
    seq!['E', 'n', 't', 'e', 'r']
}

/// What pressing key `k` in step `step` does: the step after it, and the
/// action.
pub open spec fn key_decision(step: CurrentStep, k: Seq<char>) -> (CurrentStep, KeyAction) {
    if k == arrow_left() {
        (step, KeyAction::RotateLeft)
    } else if k == arrow_right() {
        (step, KeyAction::RotateRight)
    } else if k == arrow_up() {
        (step, KeyAction::RotateUp)
    } else if k == arrow_down() {
        (step, KeyAction::RotateDown)
    } else if k == seq![' '] && step == CurrentStep::SelectPoly {
        (step, KeyAction::NextPolyhedron)
    } else if k == backspace() {
        match step {
            CurrentStep::SelectPoly => (step, KeyAction::PopPolyhedron),
            CurrentStep::MakePath => (step, KeyAction::PopPath),
            CurrentStep::AssignVariants(_) => (step, KeyAction::Nothing),
        }
    } else if k == enter() {
        match step {
            CurrentStep::SelectPoly => (CurrentStep::AssignVariants(0), KeyAction::StepChanged),
            CurrentStep::AssignVariants(_) => (CurrentStep::MakePath, KeyAction::StepChanged),
            CurrentStep::MakePath => (step, KeyAction::CompletePath),
        }
    } else if in_digits(k) {
        let v = dec_value(k) as usize;
        match step {
            CurrentStep::AssignVariants(_) => (CurrentStep::AssignVariants(v), KeyAction::CurrentVariant(v)),
            CurrentStep::MakePath => (step, KeyAction::PathJump(v)),
            CurrentStep::SelectPoly => (step, KeyAction::Nothing),
        }
    } else {
        (step, KeyAction::Nothing)
    }
}

/// `key` is `word`.
fn key_is(key: &Vec<char>, word: &[char]) -> (r: bool)
    ensures
        r == (key@ == word@),
{
    if key.len() != word.len() {
        return false;
    }
    let mut i: usize = 0;
    while i < key.len()
        invariant
            key@.len() == word@.len(),
            0 <= i <= key@.len(),
            forall|j: int| 0 <= j < i ==> key@[j] == word@[j],
        decreases key@.len() - i,
    {
        if key[i] != word[i] {
            return false;
        }
        i += 1;
    }
    assert(key@ =~= word@);
    true
}

/// Whether `key` is a run of digits of "0123456789".
fn digit_run(key: &Vec<char>) -> (r: bool)
    ensures
        r == in_digits(key@),
{
    let mut i: usize = 0;
    while i < key.len()
        invariant
            0 <= i <= key@.len(),
            forall|j: int| 0 <= j < i ==> '0' as int <= #[trigger] key@[j] as int <= '9' as int,
            forall|j: int| 0 < j < i ==> #[trigger] key@[j] as int == key@[j - 1] as int + 1,
        decreases key@.len() - i,
    {
        let c = key[i];
        if !(c >= '0' && c <= '9') {
            proof {
                if in_digits(key@) {
                    let s = choose|s: int| #[trigger] run_from(key@, s);
                    assert(key@[i as int] as int == '0' as int + s + i);
                }
            }
            return false;
        }
        if i > 0 && c as u32 != key[i - 1] as u32 + 1 {
            proof {
                if in_digits(key@) {
                    let s = choose|s: int| #[trigger] run_from(key@, s);
                    assert(key@[i as int] as int == '0' as int + s + i);
                    assert(key@[i - 1] as int == '0' as int + s + i - 1);
                }
            }
            return false;
        }
        i += 1;
    }
    proof {
        if key@.len() > 0 {
            let s = key@[0] as int - '0' as int;
            assert forall|j: int| 0 <= j < key@.len() implies #[trigger] key@[j] as int == '0' as int + s + j by {
                lemma_consecutive(key@, j);
            }
            assert(key@[key@.len() - 1] as int == '0' as int + s + key@.len() - 1);
            assert(0 <= s && s + key@.len() <= 10);
            assert(run_from(key@, s));
        } else {
            assert(run_from(key@, 0));
        }
    }
    true
}

/// The number that a run of digits of "0123456789" writes.
fn digits_value(key: &Vec<char>) -> (r: usize)
    requires
        in_digits(key@),
    ensures
        r == dec_value(key@),
{
    let ghost s = choose|s: int| #[trigger] run_from(key@, s);
    proof {
        assert forall|j: int| 0 <= j < key@.len() implies '0' as int <= #[trigger] key@[j] as int <= '9' as int by {
            assert(key@[j] as int == '0' as int + s + j);
        }
        lemma_dec_bound(key@);
        lemma_pow10_grows(key@.len(), 10);
        assert(pow10(10) == 10000000000) by {
            reveal_with_fuel(pow10, 11);
        }
    }
    let mut v: u64 = 0;
    let mut i: usize = 0;
    while i < key.len()
        invariant
            0 <= i <= key@.len(),
            key@.len() <= 10,
            forall|j: int| 0 <= j < key@.len() ==> '0' as int <= #[trigger] key@[j] as int <= '9' as int,
            v == dec_value(key@.subrange(0, i as int)),
        decreases key@.len() - i,
    {
        let ghost pre = key@.subrange(0, i as int);
        let ghost nxt = key@.subrange(0, i + 1);
        proof {
            assert(nxt.drop_last() =~= pre);
            assert forall|j: int| 0 <= j < nxt.len() implies '0' as int <= #[trigger] nxt[j] as int <= '9' as int by {
                assert(nxt[j] == key@[j]);
            }
            lemma_dec_bound(nxt);
            lemma_pow10_grows(nxt.len(), 10);
            assert(pow10(10) == 10000000000) by {
            reveal_with_fuel(pow10, 11);
        }
        }
        let d = (key[i] as u32 - '0' as u32) as u64;
        v = v * 10 + d;
        i += 1;
    }
    proof {
        assert(key@.subrange(0, i as int) =~= key@);
        if key@.len() < 10 {
            lemma_pow10_grows(key@.len(), 9);
            assert(pow10(9) == 1000000000) by {
                reveal_with_fuel(pow10, 10);
            }
        } else {
            assert(s == 0);
            assert(key@ =~= seq!['0', '1', '2', '3', '4', '5', '6', '7', '8', '9']);
            let w = seq!['0', '1', '2', '3', '4', '5', '6', '7', '8', '9'];
            assert(dec_value(w) == 123456789) by {
                reveal_with_fuel(dec_value, 11);
                assert(w.drop_last() =~= seq!['0', '1', '2', '3', '4', '5', '6', '7', '8']);
                assert(w.drop_last().drop_last() =~= seq!['0', '1', '2', '3', '4', '5', '6', '7']);
                assert(w.drop_last().drop_last().drop_last() =~= seq!['0', '1', '2', '3', '4', '5', '6']);
                assert(w.drop_last().drop_last().drop_last().drop_last() =~= seq!['0', '1', '2', '3', '4', '5']);
                assert(w.drop_last().drop_last().drop_last().drop_last().drop_last() =~= seq!['0', '1', '2', '3', '4']);
                assert(seq!['0', '1', '2', '3', '4'].drop_last() =~= seq!['0', '1', '2', '3']);
                assert(seq!['0', '1', '2', '3'].drop_last() =~= seq!['0', '1', '2']);
                assert(seq!['0', '1', '2'].drop_last() =~= seq!['0', '1']);
                assert(seq!['0', '1'].drop_last() =~= seq!['0']);
                assert(seq!['0'].drop_last() =~= Seq::<char>::empty());
            }
        }
    }
    v as usize
}

/// What pressing `key` in step `step` does: the step after it, and the
/// action (see [`key_decision`]). A run of digits sets the variant to
/// assign, or leaves the last face of the path that many edges on.
pub fn on_key(step: CurrentStep, key: &Vec<char>) -> (r: (CurrentStep, KeyAction))
    requires
        key@.len() == 0 ==> step == CurrentStep::SelectPoly,
    ensures
        r == key_decision(step, key@),
{
    proof {
        assert(['A', 'r', 'r', 'o', 'w', 'L', 'e', 'f', 't']@ == arrow_left());
    }
    if key_is(key, &['A', 'r', 'r', 'o', 'w', 'L', 'e', 'f', 't']) {
        return (step, KeyAction::RotateLeft);
    }
    proof {
        assert(['A', 'r', 'r', 'o', 'w', 'R', 'i', 'g', 'h', 't']@ == arrow_right());
    }
    if key_is(key, &['A', 'r', 'r', 'o', 'w', 'R', 'i', 'g', 'h', 't']) {
        return (step, KeyAction::RotateRight);
    }
    proof {
        assert(['A', 'r', 'r', 'o', 'w', 'U', 'p']@ == arrow_up());
    }
    if key_is(key, &['A', 'r', 'r', 'o', 'w', 'U', 'p']) {
        return (step, KeyAction::RotateUp);
    }
    proof {
        assert(['A', 'r', 'r', 'o', 'w', 'D', 'o', 'w', 'n']@ == arrow_down());
    }
    if key_is(key, &['A', 'r', 'r', 'o', 'w', 'D', 'o', 'w', 'n']) {
        return (step, KeyAction::RotateDown);
    }
    proof {
        assert([' ']@ == seq![' ']);
    }
    if key_is(key, &[' ']) && step == CurrentStep::SelectPoly {
        return (step, KeyAction::NextPolyhedron);
    }
    proof {
        assert(['B', 'a', 'c', 'k', 's', 'p', 'a', 'c', 'e']@ == backspace());
    }
    if key_is(key, &['B', 'a', 'c', 'k', 's', 'p', 'a', 'c', 'e']) {
        return match step {
            CurrentStep::SelectPoly => (step, KeyAction::PopPolyhedron),
            CurrentStep::MakePath => (step, KeyAction::PopPath),
            CurrentStep::AssignVariants(_) => (step, KeyAction::Nothing),
        };
    }
    proof {
        assert(['E', 'n', 't', 'e', 'r']@ == enter());
    }
    if key_is(key, &['E', 'n', 't', 'e', 'r']) {
        return match step {
            CurrentStep::SelectPoly => (CurrentStep::AssignVariants(0), KeyAction::StepChanged),
            CurrentStep::AssignVariants(_) => (CurrentStep::MakePath, KeyAction::StepChanged),
            CurrentStep::MakePath => (step, KeyAction::CompletePath),
        };
    }
    if digit_run(key) {
        return match step {
            CurrentStep::AssignVariants(_) => {
                let v = digits_value(key);
                (CurrentStep::AssignVariants(v), KeyAction::CurrentVariant(v))
            },
            CurrentStep::MakePath => {
                let v = digits_value(key);
                (step, KeyAction::PathJump(v))
            },
            CurrentStep::SelectPoly => (step, KeyAction::Nothing),
        };
    }
    (step, KeyAction::Nothing)
}

/// What a click on a board does in step `step`: on the path step the face
/// is added to the path, on assigning it gets the variant to assign.
pub fn on_click(step: CurrentStep) -> (r: ClickAction)
    ensures
        r == match step {
            CurrentStep::SelectPoly => ClickAction::Nothing,
            CurrentStep::MakePath => ClickAction::AddToPath,
            CurrentStep::AssignVariants(v) => ClickAction::SetVariant(v),
        },
{
    match step {
        CurrentStep::SelectPoly => ClickAction::Nothing,
        CurrentStep::MakePath => ClickAction::AddToPath,
        CurrentStep::AssignVariants(variant) => ClickAction::SetVariant(variant),
    }
}

} // verus!
