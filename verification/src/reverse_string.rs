//! The machine that reverses a string of binary digits.

use vstd::prelude::*;
use crate::machine::{
    Action, Conf, EngineMachine, MachineModel, Move, ProgramModel, Rule, Transcript, act,
    build_machine, chars_of, halts_with, insert_rules, lemma_halting_is_determined,
    lemma_reaches_halt, lemma_reaches_step, lemma_reaches_trans, lemma_rules_fit_upto,
    lemma_scan_left, lemma_scan_right, lemma_without_blanks_append, lemma_without_blanks_none,
    lemma_without_blanks_single, machine_view, reaches, rules_fit, rules_fit_upto, run_machine,
    start_conf, step, visible_text, without_blanks,
};
use crate::digits::{all_binary, mark, matches_binary_digits};

verus! {

/// The reversing machine's instruction for a state and a symbol, as its
/// table defines it (the later of two instructions for the same head wins).
pub open spec fn reverse_action(state: nat, symbol: char) -> Option<Action> {
    if state == 1 {
        match symbol {
            '0' => Some(act(4, 'F', Move::Right)),
            '1' => Some(act(5, 'T', Move::Right)),
            'F' => Some(act(2, 'F', Move::Right)),
            'T' => Some(act(2, 'T', Move::Right)),
            '_' => Some(act(3, '_', Move::Left)),
            _ => Option::None,
        }
    } else if state == 2 {
        match symbol {
            '0' => Some(act(2, '0', Move::Right)),
            '1' => Some(act(2, '1', Move::Right)),
            'F' => Some(act(2, 'F', Move::Right)),
            'T' => Some(act(2, 'T', Move::Right)),
            '_' => Some(act(3, '_', Move::Left)),
            _ => Option::None,
        }
    } else if state == 3 {
        match symbol {
            '0' => Some(act(3, '0', Move::Left)),
            '1' => Some(act(3, '1', Move::Left)),
            '_' => Some(act(0, '_', Move::Stay)),
            'F' => Some(act(3, '0', Move::Left)),
            'T' => Some(act(3, '1', Move::Left)),
            _ => Option::None,
        }
    } else if state == 4 {
        match symbol {
            '0' => Some(act(4, '0', Move::Right)),
            '1' => Some(act(4, '1', Move::Right)),
            'F' => Some(act(6, 'F', Move::Left)),
            'T' => Some(act(6, 'T', Move::Left)),
            '_' => Some(act(6, '_', Move::Left)),
            _ => Option::None,
        }
    } else if state == 5 {
        match symbol {
            '0' => Some(act(5, '0', Move::Right)),
            '1' => Some(act(5, '1', Move::Right)),
            'F' => Some(act(7, 'F', Move::Left)),
            'T' => Some(act(7, 'T', Move::Left)),
            '_' => Some(act(7, '_', Move::Left)),
            _ => Option::None,
        }
    } else if state == 6 {
        match symbol {
            '0' => Some(act(8, 'F', Move::Left)),
            '1' => Some(act(9, 'F', Move::Left)),
            'F' => Some(act(2, 'F', Move::Right)),
            'T' => Some(act(2, 'T', Move::Right)),
            '_' => Some(act(3, '_', Move::Left)),
            _ => Option::None,
        }
    } else if state == 7 {
        match symbol {
            '0' => Some(act(8, 'T', Move::Left)),
            '1' => Some(act(9, 'T', Move::Left)),
            'F' => Some(act(2, 'F', Move::Right)),
            'T' => Some(act(2, 'T', Move::Right)),
            '_' => Some(act(3, '_', Move::Left)),
            _ => Option::None,
        }
    } else if state == 8 {
        match symbol {
            '0' => Some(act(8, '0', Move::Left)),
            '1' => Some(act(8, '1', Move::Left)),
            'F' => Some(act(1, 'F', Move::Right)),
            'T' => Some(act(1, 'F', Move::Right)),
            '_' => Some(act(3, '_', Move::Left)),
            _ => Option::None,
        }
    } else if state == 9 {
        match symbol {
            '0' => Some(act(9, '0', Move::Left)),
            '1' => Some(act(9, '1', Move::Left)),
            'F' => Some(act(1, 'T', Move::Right)),
            'T' => Some(act(1, 'T', Move::Right)),
            '_' => Some(act(3, '_', Move::Left)),
            _ => Option::None,
        }
    } else {
        Option::None
    }
}

/// The reversing machine's table as a map from heads to instructions.
pub open spec fn reverse_table() -> Map<(nat, char), Action> {
    Map::new(|k: (nat, char)| reverse_action(k.0, k.1) is Some, |k: (nat, char)| reverse_action(k.0, k.1)->Some_0)
}

/// The instructions of the reversing machine. `F` and `T` are the marked forms
/// of `0` and `1`; `_` is the blank.
pub fn reverse_rules() -> (rules: Vec<Rule>)
    ensures
        insert_rules(Map::empty(), rules@, rules@.len()) == reverse_table(),
        rules_fit(reverse_alphabet(), 10, rules@),
{
    let rules: Vec<Rule> = vec![
        // Initial State: State 1

        // State 1: seeking-left (seeking left bit of a pair to transpose)

        // Current bit is 0; mark it with a prime (visited)
        // Transition to State 4: seeking-right(left-0)
        (1, '0', 4, 'F', Move::Right),

        // Current bit is 1; mark it with a prime (visited)
        // Transition to State 5: seeking-right(left-1)
        (1, '1', 5, 'T', Move::Right),

        // Current bit is already marked: we are done swapping bits
        // It is already in its place, so it keeps its value
        // Transition to State 2: seeking-blank
        (1, 'F', 2, 'F', Move::Right),
        (1, 'T', 2, 'T', Move::Right),

        // We have hit the end of the string
        // We are done, so unmark everything before this point
        // Transition to State 3: unmarking
        (1, '_', 3, '_', Move::Left),

        // State 2: seeking-blank

        // If we are on a non-blank, skip it and keep seeking right
        (2, '0', 2, '0', Move::Right),
        (2, '1', 2, '1', Move::Right),
        (2, 'F', 2, 'F', Move::Right),
        (2, 'T', 2, 'T', Move::Right),

        // We have found the blank
        // We are done, so unmark everything before this point
        // Transition to State 3: unmarking
        (2, '_', 3, '_', Move::Left),

        // State 3: unmarking

        // If we are not on a marked bit, skip it and keep seeking left
        (3, '0', 3, '0', Move::Left),
        (3, '1', 3, '1', Move::Left),
        (3, '_', 3, '_', Move::Left),   // Don't expect this to occur

        // If we are on a marked bit, unmark it and keep seeking left
        (3, 'F', 3, '0', Move::Left),
        (3, 'T', 3, '1', Move::Left),

        // The machine will halt when it runs into the beginning of the tape
        (3, '_', 0, '_', Move::Stay),

        // State 4: seeking-right(left-0) and State 5: seeking-right(left-1)

        // If we are on an unmarked bit, skip it and keep seeking right
        (4, '0', 4, '0', Move::Right),
        (5, '0', 5, '0', Move::Right),
        (4, '1', 4, '1', Move::Right),
        (5, '1', 5, '1', Move::Right),

        // When we come to a marked bit or a blank, we are done seeking right
        // Leave the current square as it is
        // Step once to the left to find the right-bit of the pair to swap
        // Transition from State 4 seeking-right(left-0)
        //              to State 6: step-left(left-0)
        // Transition from State 5 seeking-right(left-1)
        //              to State 7: step-left(left-1)
        (4, 'F', 6, 'F', Move::Left),
        (5, 'F', 7, 'F', Move::Left),
        (4, 'T', 6, 'T', Move::Left),
        (5, 'T', 7, 'T', Move::Left),
        (4, '_', 6, '_', Move::Left),
        (5, '_', 7, '_', Move::Left),

        // State 6: step-left(left-0) and State 7: step-left(left-1)
        // The current square is the right bit of the pair to swap
        // Save the current value of the right bit into the new state
        // Write the value of the left bit into the current square
        // Mark the current square as visited
        // Start seeking back to the (marked) left bit to finish the swap
        // Transition to State 8: seeking-left(right-0)
        //            or State 9: seeking-left(right-1)
        //   depending on the old value of the current square
        (6, '0', 8, 'F', Move::Left),  // Square gets value 0 from left bit
        (7, '0', 8, 'T', Move::Left),  // Square gets value 1 from left bit
        (6, '1', 9, 'F', Move::Left),  // Square gets value 0 from left bit
        (7, '1', 9, 'T', Move::Left),  // Square gets value 1 from left bit

        // If we run into a marked bit here, we are done
        // Transition to State 2: seeking-blank
        (6, 'F', 2, 'F', Move::Right),
        (7, 'F', 2, 'F', Move::Right),
        (6, 'T', 2, 'T', Move::Right),
        (7, 'T', 2, 'T', Move::Right),

        // If we run into a blank we can start unmarking
        // Transition to State 3: unmarking
        (6, '_', 3, '_', Move::Left),   // Don't expect this to occur
        (7, '_', 3, '_', Move::Left),   // Don't expect this to occur

        // State 8: seeking-left(right-0) and State 9: seeking-left(right-1)

        // If we run into an unmarked bit, skip it and keep seeking left
        (8, '0', 8, '0', Move::Left),
        (9, '0', 9, '0', Move::Left),
        (8, '1', 8, '1', Move::Left),
        (9, '1', 9, '1', Move::Left),

        // When we come to a marked bit, write the value from the right bit
        // This completes the swap; seek the next inner pair of bits to swap
        // Move to the right
        // Transition to State 1: seeking-left
        (8, 'F', 1, 'F', Move::Right),
        (9, 'F', 1, 'T', Move::Right),
        (8, 'T', 1, 'F', Move::Right),
        (9, 'T', 1, 'T', Move::Right),

        // If we encounter a blank, go into the unmarking state
        (8, '_', 3, '_', Move::Left),   // Don't expect this to occur
        (9, '_', 3, '_', Move::Left),   // Don't expect this to occur
    ];
    proof {
        reveal_with_fuel(insert_rules, 50);
        assert(insert_rules(Map::empty(), rules@, rules@.len()) =~= reverse_table());
        let letters = reverse_alphabet();
        assert(letters[0] == '0' && letters[1] == '1' && letters[2] == 'F' && letters[3] == 'T' && letters[4] == '_');
        reveal_with_fuel(rules_fit_upto, 50);
        assert(rules_fit_upto(letters, 10, rules@, rules@.len()));
        lemma_rules_fit_upto(letters, 10, rules@, rules@.len());
    }
    rules
}

/// The symbols of the reversing machine.
pub open spec fn reverse_alphabet() -> Seq<char> {
    seq!['0', '1', 'F', 'T', '_']
}

/// The reversing machine: its alphabet, its last state 10, its table and the
/// blank `_`.
pub open spec fn reverse_model() -> MachineModel {
    MachineModel {
        program: ProgramModel { alphabet: reverse_alphabet(), last_state: 10, table: reverse_table() },
        blank: '_',
    }
}

/// The tape when the `k`-th round starts: the first `k` and the last `k` digits
/// hold the reversed string, marked; the middle still holds the input.
pub open spec fn round_tape(w: Seq<char>, k: int) -> Seq<char> {
    Seq::new(
        (w.len() + 1) as nat,
        |i: int|
            if i == w.len() {
                '_'
            } else if i < k || i >= w.len() - k {
                mark(w[w.len() - 1 - i])
            } else {
                w[i]
            },
    )
}

/// The tape while the final sweep unmarks the cells from `j` down to 0.
pub open spec fn unmark_tape(w: Seq<char>, j: int) -> Seq<char> {
    Seq::new(
        (w.len() + 1) as nat,
        |i: int|
            if i == w.len() {
                '_'
            } else if i <= j {
                mark(w[w.len() - 1 - i])
            } else {
                w[w.len() - 1 - i]
            },
    )
}

/// The tape that the reversing machine leaves for `w`.
pub open spec fn reversed_tape(w: Seq<char>) -> Seq<char> {
    seq!['_'] + w.reverse() + seq!['_']
}

proof fn lemma_unmark_sweep(w: Seq<char>, j: int)
    requires
        all_binary(w),
        0 <= j < w.len(),
    ensures
        reaches(
            reverse_model(),
            Conf { tape: unmark_tape(w, j), head: j, state: 3 },
            Conf { tape: reversed_tape(w), head: 0, state: 0 },
        ),
    decreases j,
{
    let m = reverse_model();
    let n = w.len() as int;
    let t = unmark_tape(w, j);
    let c = Conf { tape: t, head: j, state: 3 };
    let d = w[n - 1 - j];
    assert(t[j] == mark(d));
    let t1 = t.update(j, d);
    if j == 0 {
        let c1 = Conf { tape: seq!['_'] + t1, head: 0, state: 3 };
        assert(step(m, c) == Some(c1));
        lemma_reaches_step(m, c);
        let f = Conf { tape: reversed_tape(w), head: 0, state: 0 };
        assert((seq!['_'] + t1).update(0, '_') =~= reversed_tape(w));
        assert(step(m, c1) == Some(f));
        lemma_reaches_step(m, c1);
        lemma_reaches_trans(m, c, c1, f);
    } else {
        let c1 = Conf { tape: unmark_tape(w, j - 1), head: j - 1, state: 3 };
        assert(t1 =~= unmark_tape(w, j - 1));
        assert(step(m, c) == Some(c1));
        lemma_reaches_step(m, c);
        lemma_unmark_sweep(w, j - 1);
        lemma_reaches_trans(m, c, c1, Conf { tape: reversed_tape(w), head: 0, state: 0 });
    }
}

/// Once every digit is marked, state 2 runs to the blank and state 3 unmarks the
/// tape on its way back, then halts on the blank it adds at the left end.
proof fn lemma_final_sweep(w: Seq<char>, h: int)
    requires
        all_binary(w),
        0 < w.len(),
        0 <= h <= w.len(),
    ensures
        reaches(
            reverse_model(),
            Conf { tape: round_tape(w, w.len() as int), head: h, state: 2 },
            Conf { tape: reversed_tape(w), head: 0, state: 0 },
        ),
{
    let m = reverse_model();
    let n = w.len() as int;
    let t = round_tape(w, n);
    assert forall|i: int| h <= i < n implies #[trigger] crate::machine::lookup(m, 2, t[i]) == Some(
        Action { next: 2, write: t[i], shift: Move::Right },
    ) by {
        assert(t[i] == mark(w[n - 1 - i]));
    }
    lemma_scan_right(m, t, 2, h, n);
    let c0 = Conf { tape: t, head: h, state: 2 };
    let c1 = Conf { tape: t, head: n, state: 2 };
    let c2 = Conf { tape: t, head: n - 1, state: 3 };
    assert(t.update(n, '_') =~= t);
    assert(step(m, c1) == Some(c2));
    lemma_reaches_step(m, c1);
    assert(t =~= unmark_tape(w, n - 1));
    lemma_unmark_sweep(w, n - 1);
    let f = Conf { tape: reversed_tape(w), head: 0, state: 0 };
    lemma_reaches_trans(m, c0, c1, c2);
    lemma_reaches_trans(m, c0, c2, f);
}

/// A full round: the digits at `k` and at `n - 1 - k` trade places and get marked.
proof fn lemma_round(w: Seq<char>, k: int)
    requires
        all_binary(w),
        0 <= k,
        2 * k + 2 <= w.len(),
    ensures
        reaches(
            reverse_model(),
            Conf { tape: round_tape(w, k), head: k, state: 1 },
            Conf { tape: round_tape(w, k + 1), head: k + 1, state: 1 },
        ),
{
    let m = reverse_model();
    let n = w.len() as int;
    let t0 = round_tape(w, k);
    let b = w[k];
    let p = n - 1 - k;
    let c = w[p];
    let s1: nat = if b == '0' { 4 } else { 5 };
    let s3: nat = if b == '0' { 6 } else { 7 };
    let s4: nat = if c == '0' { 8 } else { 9 };
    let c0 = Conf { tape: t0, head: k, state: 1 };
    assert(t0[k] == b);
    let t1 = t0.update(k, mark(b));
    let c1 = Conf { tape: t1, head: k + 1, state: s1 };
    assert(step(m, c0) == Some(c1));
    lemma_reaches_step(m, c0);
    assert forall|i: int| k + 1 <= i < p + 1 implies #[trigger] crate::machine::lookup(m, s1, t1[i]) == Some(
        Action { next: s1, write: t1[i], shift: Move::Right },
    ) by {
        assert(t1[i] == w[i]);
    }
    lemma_scan_right(m, t1, s1, k + 1, p + 1);
    let c2 = Conf { tape: t1, head: p + 1, state: s1 };
    let c3 = Conf { tape: t1, head: p, state: s3 };
    assert(t1.update(p + 1, t1[p + 1]) =~= t1);
    assert(step(m, c2) == Some(c3));
    lemma_reaches_step(m, c2);
    assert(t1[p] == c);
    let t2 = t1.update(p, mark(b));
    let c4 = Conf { tape: t2, head: p - 1, state: s4 };
    assert(step(m, c3) == Some(c4));
    lemma_reaches_step(m, c3);
    assert forall|i: int| k < i <= p - 1 implies #[trigger] crate::machine::lookup(m, s4, t2[i]) == Some(
        Action { next: s4, write: t2[i], shift: Move::Left },
    ) by {
        assert(t2[i] == w[i]);
    }
    lemma_scan_left(m, t2, s4, p - 1, k);
    let c5 = Conf { tape: t2, head: k, state: s4 };
    let t3 = t2.update(k, mark(c));
    let c6 = Conf { tape: t3, head: k + 1, state: 1 };
    assert(step(m, c5) == Some(c6));
    lemma_reaches_step(m, c5);
    assert(t3 =~= round_tape(w, k + 1));
    lemma_reaches_trans(m, c0, c1, c2);
    lemma_reaches_trans(m, c0, c2, c3);
    lemma_reaches_trans(m, c0, c3, c4);
    lemma_reaches_trans(m, c0, c4, c5);
    lemma_reaches_trans(m, c0, c5, c6);
}

/// From the start of round `k`, the machine halts with the reversed string.
proof fn lemma_rounds(w: Seq<char>, k: int)
    requires
        all_binary(w),
        0 < w.len(),
        0 <= k,
        2 * k <= w.len(),
    ensures
        reaches(
            reverse_model(),
            Conf { tape: round_tape(w, k), head: k, state: 1 },
            Conf { tape: reversed_tape(w), head: 0, state: 0 },
        ),
    decreases w.len() - 2 * k,
{
    let m = reverse_model();
    let n = w.len() as int;
    let c0 = Conf { tape: round_tape(w, k), head: k, state: 1 };
    let f = Conf { tape: reversed_tape(w), head: 0, state: 0 };
    if 2 * k + 2 <= n {
        lemma_round(w, k);
        lemma_rounds(w, k + 1);
        lemma_reaches_trans(m, c0, Conf { tape: round_tape(w, k + 1), head: k + 1, state: 1 }, f);
    } else if 2 * k + 1 == n {
        // The middle digit stays where it is: it is marked and the machine turns to
        // the final sweep.
        let t0 = round_tape(w, k);
        let b = w[k];
        let s1: nat = if b == '0' { 4 } else { 5 };
        let s3: nat = if b == '0' { 6 } else { 7 };
        assert(t0[k] == b);
        let t1 = t0.update(k, mark(b));
        let c1 = Conf { tape: t1, head: k + 1, state: s1 };
        assert(step(m, c0) == Some(c1));
        lemma_reaches_step(m, c0);
        let c2 = Conf { tape: t1, head: k, state: s3 };
        assert(t1.update(k + 1, t1[k + 1]) =~= t1);
        assert(step(m, c1) == Some(c2));
        lemma_reaches_step(m, c1);
        let c3 = Conf { tape: t1, head: k + 1, state: 2 };
        assert(t1.update(k, t1[k]) =~= t1);
        assert(step(m, c2) == Some(c3));
        lemma_reaches_step(m, c2);
        assert(t1 =~= round_tape(w, n));
        lemma_final_sweep(w, k + 1);
        lemma_reaches_trans(m, c0, c1, c2);
        lemma_reaches_trans(m, c0, c2, c3);
        lemma_reaches_trans(m, c0, c3, f);
    } else {
        // Every digit is in place: the machine meets a marked cell and turns to the
        // final sweep.
        let t0 = round_tape(w, k);
        assert(t0[k] == mark(w[n - 1 - k]));
        let c1 = Conf { tape: t0, head: k + 1, state: 2 };
        assert(t0.update(k, t0[k]) =~= t0);
        assert(step(m, c0) == Some(c1));
        lemma_reaches_step(m, c0);
        assert(t0 =~= round_tape(w, n));
        lemma_final_sweep(w, k + 1);
        lemma_reaches_trans(m, c0, c1, f);
    }
}

/// The reversing machine halts on `w` followed by a blank, and leaves the
/// reversed string between two blanks.
pub proof fn lemma_reverse_machine_halts(w: Seq<char>)
    requires
        all_binary(w),
    ensures
        halts_with(reverse_model(), start_conf(w.push('_')), reversed_tape(w)),
{
    let m = reverse_model();
    let c0 = start_conf(w.push('_'));
    let f = Conf { tape: reversed_tape(w), head: 0, state: 0 };
    if w.len() == 0 {
        let c1 = Conf { tape: seq!['_', '_'], head: 0, state: 3 };
        assert(seq!['_'] + w.push('_').update(0, '_') =~= seq!['_', '_']);
        assert(step(m, c0) == Some(c1));
        lemma_reaches_step(m, c0);
        assert(seq!['_', '_'].update(0, '_') =~= reversed_tape(w));
        assert(step(m, c1) == Some(f));
        lemma_reaches_step(m, c1);
        lemma_reaches_trans(m, c0, c1, f);
    } else {
        assert(w.push('_') =~= round_tape(w, 0));
        lemma_rounds(w, 0);
    }
    lemma_reaches_halt(m, c0, f);
}

pub open spec fn not_binary_message() -> Seq<char> {
    "Input is not a string of 0s and 1s"@
}

/// Validates the text to reverse: a string of binary digits, possibly empty.
pub fn is_binary_string(s: &str) -> (r: Result<String, String>)
    ensures
        r is Ok <==> all_binary(s@),
        r matches Ok(v) ==> v@ == s@,
        r matches Err(msg) ==> msg@ == not_binary_message(),
{
    if matches_binary_digits(s) {
        Ok(s.to_owned())
    } else {
        Err("Input is not a string of 0s and 1s".to_owned())
    }
}

/// Builds the reversing machine in the engine.
pub fn reverse_machine() -> (r: Result<EngineMachine, String>)
    ensures
        r matches Ok(m) && machine_view(m) == reverse_model(),
{
    let alphabet = vec!['0', '1', 'F', 'T', '_'];
    let rules = reverse_rules();
    proof {
        assert(alphabet@ =~= reverse_alphabet());
        assert(alphabet@[4] == '_');
    }
    build_machine(alphabet, 10, &rules, '_')
}

/// Reverses a string of binary digits with the reversing machine: the text of
/// the tape it starts from is the string, the text of the tape it leaves is the
/// string reversed.
pub fn reverse_binary(text: &str) -> (r: Result<Transcript, String>)
    requires
        all_binary(text@),
    ensures
        r matches Ok(t) && t.input@ == text@ && t.output@ == text@.reverse(),
{
    let machine = match reverse_machine() {
        Ok(machine) => machine,
        Err(message) => {
            return Err(message);
        },
    };
    let mut tape = chars_of(text);
    tape.push('_');
    let ghost start = tape@;
    let shown = visible_text(&tape, '_');
    proof {
        assert(start =~= text@.push('_'));
        lemma_reverse_machine_halts(text@);
        lemma_halting_is_determined(reverse_model(), start_conf(start), reversed_tape(text@));
        lemma_no_blank_digits(text@);
        lemma_without_blanks_append(text@, seq!['_'], '_');
        lemma_without_blanks_single('_', '_');
        assert(text@ + seq!['_'] =~= start);
    }
    let finished = match run_machine(&machine, tape) {
        Ok(finished) => finished,
        Err(message) => {
            return Err(message);
        },
    };
    let output = visible_text(&finished, '_');
    proof {
        lemma_no_blank_digits(text@.reverse());
        lemma_without_blanks_append(seq!['_'], text@.reverse(), '_');
        lemma_without_blanks_append(seq!['_'] + text@.reverse(), seq!['_'], '_');
        lemma_without_blanks_single('_', '_');
    }
    Ok(Transcript { input: shown, output })
}

/// Validates the text as the command line does, then reverses it.
pub fn run(text: &str) -> (r: Result<Transcript, String>)
    ensures
        r is Ok <==> all_binary(text@),
        r matches Ok(t) ==> t.input@ == text@ && t.output@ == text@.reverse(),
        r matches Err(msg) ==> msg@ == not_binary_message(),
{
    match is_binary_string(text) {
        Ok(valid) => reverse_binary(valid.as_str()),
        Err(message) => Err(message),
    }
}

/// A string of binary digits holds no blank, and neither does its reverse.
pub proof fn lemma_no_blank_digits(w: Seq<char>)
    requires
        all_binary(w) || all_binary(w.reverse()),
    ensures
        without_blanks(w, '_') == w,
{
    assert forall|i: int| 0 <= i < w.len() implies w[i] != '_' by {
        if !all_binary(w) {
            assert(w.reverse()[w.len() - 1 - i] == w[i]);
        }
    }
    lemma_without_blanks_none(w, '_');
}

/// Reversing twice gives the text back: what a run on `w` leaves is again a
/// string of binary digits, and a run on it leaves `w`.
pub proof fn lemma_reverse_twice(w: Seq<char>)
    requires
        all_binary(w),
    ensures
        all_binary(w.reverse()),
        w.reverse().reverse() == w,
{
    assert forall|i: int| 0 <= i < w.reverse().len() implies crate::digits::is_binary_digit(
        #[trigger] w.reverse()[i],
    ) by {
        assert(w.reverse()[i] == w[w.len() - 1 - i]);
    }
    assert(w.reverse().reverse() =~= w);
}

} // verus!
