//! The machine that adds two binary numbers.

use vstd::prelude::*;
use crate::adder::{
    add_alphabet, add_model, addition_input, addition_output, binary_value, lemma_add_machine_halts,
    sum_digits,
};
use crate::machine::{
    Action, EngineMachine, Move, Rule, Transcript, act, build_machine, chars_of, insert_rules,
    lemma_halting_is_determined, lemma_insert_rules_append, lemma_rules_fit_append,
    lemma_rules_fit_upto, lemma_without_blanks_append, lemma_without_blanks_none,
    lemma_without_blanks_single, machine_view, rules_fit, rules_fit_upto, start_conf, run_machine,
    visible_text, without_blanks,
};
use crate::digits::{all_binary, is_binary_digit, matches_binary_digits};

verus! {

pub open spec fn not_binary_message() -> Seq<char> {
    "Input is not a string of 0s and 1s"@
}

/// Validates an addend: a string of binary digits, where the empty string stands
/// for zero.
pub fn is_binary_string(s: &str) -> (r: Result<String, String>)
    ensures
        r is Ok <==> all_binary(s@),
        r matches Ok(v) ==> v@ == (if s@.len() == 0 { seq!['0'] } else { s@ }),
        r matches Err(msg) ==> msg@ == not_binary_message(),
{
    if matches_binary_digits(s) {
        if s.is_empty() {
            let zero = "0";
            proof { reveal_strlit("0"); }
            Ok(zero.to_owned())
        } else {
            Ok(s.to_owned())
        }
    } else {
        Err("Input is not a string of 0s and 1s".to_owned())
    }
}


/// The adding machine's instruction for a state and a symbol, as its table
/// defines it.
pub open spec fn add_action(state: nat, symbol: char) -> Option<Action> {
    if state == 1 {
        match symbol {
            '0' => Some(act(1, '0', Move::Right)),
            '1' => Some(act(1, '1', Move::Right)),
            '+' => Some(act(1, '+', Move::Right)),
            'F' => Some(act(1, 'F', Move::Right)),
            'T' => Some(act(1, 'T', Move::Right)),
            '=' => Some(act(2, '=', Move::Right)),
            _ => Option::None,
        }
    } else if state == 2 {
        match symbol {
            '_' => Some(act(3, '?', Move::Left)),
            _ => Option::None,
        }
    } else if state == 3 {
        match symbol {
            '0' => Some(act(4, 'F', Move::Left)),
            '1' => Some(act(4, 'T', Move::Left)),
            '+' => Some(act(5, '+', Move::Left)),
            'F' => Some(act(3, 'F', Move::Left)),
            'T' => Some(act(3, 'T', Move::Left)),
            '=' => Some(act(3, '=', Move::Left)),
            '?' => Some(act(3, '?', Move::Left)),
            _ => Option::None,
        }
    } else if state == 4 {
        match symbol {
            '0' => Some(act(4, '0', Move::Left)),
            '1' => Some(act(4, '1', Move::Left)),
            '+' => Some(act(6, '+', Move::Left)),
            _ => Option::None,
        }
    } else if state == 5 {
        match symbol {
            '0' => Some(act(7, 'F', Move::Right)),
            '1' => Some(act(7, 'T', Move::Right)),
            'F' => Some(act(5, 'F', Move::Left)),
            'T' => Some(act(5, 'T', Move::Left)),
            '+' => Some(act(5, '+', Move::Left)),
            '=' => Some(act(5, '=', Move::Left)),
            '?' => Some(act(5, '?', Move::Left)),
            '_' => Some(act(11, '_', Move::Right)),
            _ => Option::None,
        }
    } else if state == 6 {
        match symbol {
            '0' => Some(act(8, 'F', Move::Right)),
            '1' => Some(act(8, 'T', Move::Right)),
            'F' => Some(act(6, 'F', Move::Left)),
            'T' => Some(act(6, 'T', Move::Left)),
            '_' => Some(act(9, '_', Move::Right)),
            _ => Option::None,
        }
    } else if state == 7 {
        match symbol {
            '0' => Some(act(7, '0', Move::Right)),
            '1' => Some(act(7, '1', Move::Right)),
            '+' => Some(act(7, '+', Move::Right)),
            'F' => Some(act(7, 'F', Move::Right)),
            'T' => Some(act(7, 'T', Move::Right)),
            '=' => Some(act(7, '=', Move::Right)),
            '?' => Some(act(7, '?', Move::Right)),
            '_' => Some(act(5, '?', Move::Left)),
            _ => Option::None,
        }
    } else if state == 8 {
        match symbol {
            '0' => Some(act(8, '0', Move::Right)),
            '1' => Some(act(8, '1', Move::Right)),
            '+' => Some(act(8, '+', Move::Right)),
            'F' => Some(act(8, 'F', Move::Right)),
            'T' => Some(act(8, 'T', Move::Right)),
            '=' => Some(act(8, '=', Move::Right)),
            '?' => Some(act(8, '?', Move::Right)),
            '_' => Some(act(3, '?', Move::Left)),
            _ => Option::None,
        }
    } else if state == 9 {
        match symbol {
            '0' => Some(act(9, '0', Move::Right)),
            '1' => Some(act(9, '1', Move::Right)),
            '+' => Some(act(9, '+', Move::Right)),
            'F' => Some(act(9, 'F', Move::Right)),
            'T' => Some(act(9, 'T', Move::Right)),
            '=' => Some(act(9, '=', Move::Right)),
            '?' => Some(act(9, '?', Move::Right)),
            '_' => Some(act(10, '?', Move::Left)),
            _ => Option::None,
        }
    } else if state == 10 {
        match symbol {
            '0' => Some(act(9, 'F', Move::Right)),
            '1' => Some(act(9, 'T', Move::Right)),
            'F' => Some(act(10, 'F', Move::Left)),
            'T' => Some(act(10, 'T', Move::Left)),
            '=' => Some(act(10, '=', Move::Left)),
            '?' => Some(act(10, '?', Move::Left)),
            '+' => Some(act(12, '+', Move::Left)),
            _ => Option::None,
        }
    } else if state == 11 {
        match symbol {
            '0' => Some(act(11, '0', Move::Right)),
            '1' => Some(act(11, '1', Move::Right)),
            '+' => Some(act(11, '+', Move::Right)),
            'F' => Some(act(11, '0', Move::Right)),
            'T' => Some(act(11, '1', Move::Right)),
            '=' => Some(act(13, '=', Move::Left)),
            _ => Option::None,
        }
    } else if state == 12 {
        match symbol {
            '0' => Some(act(12, '0', Move::Left)),
            '1' => Some(act(12, '1', Move::Left)),
            '+' => Some(act(12, '+', Move::Left)),
            'F' => Some(act(12, 'F', Move::Left)),
            'T' => Some(act(12, 'T', Move::Left)),
            '=' => Some(act(12, '=', Move::Left)),
            '?' => Some(act(12, '?', Move::Left)),
            '_' => Some(act(11, '_', Move::Right)),
            _ => Option::None,
        }
    } else if state == 13 {
        match symbol {
            '0' => Some(act(14, 'F', Move::Left)),
            '1' => Some(act(15, 'T', Move::Left)),
            '+' => Some(act(16, '+', Move::Left)),
            'F' => Some(act(13, 'F', Move::Left)),
            'T' => Some(act(13, 'T', Move::Left)),
            _ => Option::None,
        }
    } else if state == 14 {
        match symbol {
            '0' => Some(act(14, '0', Move::Left)),
            '1' => Some(act(14, '1', Move::Left)),
            '+' => Some(act(17, '+', Move::Left)),
            _ => Option::None,
        }
    } else if state == 15 {
        match symbol {
            '0' => Some(act(15, '0', Move::Left)),
            '1' => Some(act(15, '1', Move::Left)),
            '+' => Some(act(18, '+', Move::Left)),
            _ => Option::None,
        }
    } else if state == 16 {
        match symbol {
            '0' => Some(act(19, 'F', Move::Right)),
            '1' => Some(act(20, 'T', Move::Right)),
            'F' => Some(act(16, 'F', Move::Left)),
            'T' => Some(act(16, 'T', Move::Left)),
            '_' => Some(act(21, '_', Move::Right)),
            _ => Option::None,
        }
    } else if state == 17 {
        match symbol {
            '0' => Some(act(19, 'F', Move::Right)),
            '1' => Some(act(20, 'T', Move::Right)),
            'F' => Some(act(17, 'F', Move::Left)),
            'T' => Some(act(17, 'T', Move::Left)),
            '_' => Some(act(19, '_', Move::Right)),
            _ => Option::None,
        }
    } else if state == 18 {
        match symbol {
            '0' => Some(act(20, 'F', Move::Right)),
            '1' => Some(act(22, 'T', Move::Right)),
            'F' => Some(act(18, 'F', Move::Left)),
            'T' => Some(act(18, 'T', Move::Left)),
            '_' => Some(act(20, '_', Move::Right)),
            _ => Option::None,
        }
    } else if state == 19 {
        match symbol {
            '0' => Some(act(19, '0', Move::Right)),
            '1' => Some(act(19, '1', Move::Right)),
            '+' => Some(act(19, '+', Move::Right)),
            'F' => Some(act(19, 'F', Move::Right)),
            'T' => Some(act(19, 'T', Move::Right)),
            '=' => Some(act(19, '=', Move::Right)),
            '?' => Some(act(19, '?', Move::Right)),
            '_' => Some(act(23, '_', Move::Left)),
            _ => Option::None,
        }
    } else if state == 20 {
        match symbol {
            '0' => Some(act(20, '0', Move::Right)),
            '1' => Some(act(20, '1', Move::Right)),
            '+' => Some(act(20, '+', Move::Right)),
            'F' => Some(act(20, 'F', Move::Right)),
            'T' => Some(act(20, 'T', Move::Right)),
            '=' => Some(act(20, '=', Move::Right)),
            '?' => Some(act(20, '?', Move::Right)),
            '_' => Some(act(24, '_', Move::Left)),
            _ => Option::None,
        }
    } else if state == 21 {
        match symbol {
            '0' => Some(act(21, '0', Move::Right)),
            '1' => Some(act(21, '1', Move::Right)),
            '+' => Some(act(21, '+', Move::Right)),
            'F' => Some(act(21, '0', Move::Right)),
            'T' => Some(act(21, '1', Move::Right)),
            '=' => Some(act(21, '=', Move::Right)),
            '?' => Some(act(21, '0', Move::Right)),
            '_' => Some(act(0, '_', Move::Stay)),
            _ => Option::None,
        }
    } else if state == 22 {
        match symbol {
            '0' => Some(act(22, '0', Move::Right)),
            '1' => Some(act(22, '1', Move::Right)),
            '+' => Some(act(22, '+', Move::Right)),
            'F' => Some(act(22, 'F', Move::Right)),
            'T' => Some(act(22, 'T', Move::Right)),
            '=' => Some(act(22, '=', Move::Right)),
            '?' => Some(act(22, '?', Move::Right)),
            '_' => Some(act(25, '_', Move::Left)),
            _ => Option::None,
        }
    } else if state == 23 {
        match symbol {
            '0' => Some(act(23, '0', Move::Left)),
            '1' => Some(act(23, '1', Move::Left)),
            '?' => Some(act(26, '0', Move::Left)),
            _ => Option::None,
        }
    } else if state == 24 {
        match symbol {
            '0' => Some(act(24, '0', Move::Left)),
            '1' => Some(act(24, '1', Move::Left)),
            '?' => Some(act(26, '1', Move::Left)),
            _ => Option::None,
        }
    } else if state == 25 {
        match symbol {
            '0' => Some(act(25, '0', Move::Left)),
            '1' => Some(act(25, '1', Move::Left)),
            '?' => Some(act(27, '0', Move::Left)),
            _ => Option::None,
        }
    } else if state == 26 {
        match symbol {
            '?' => Some(act(26, '?', Move::Left)),
            '=' => Some(act(13, '=', Move::Left)),
            _ => Option::None,
        }
    } else if state == 27 {
        match symbol {
            '?' => Some(act(27, '?', Move::Left)),
            '=' => Some(act(28, '=', Move::Left)),
            _ => Option::None,
        }
    } else if state == 28 {
        match symbol {
            '0' => Some(act(29, 'F', Move::Left)),
            '1' => Some(act(30, 'T', Move::Left)),
            '+' => Some(act(31, '+', Move::Left)),
            'F' => Some(act(28, 'F', Move::Left)),
            'T' => Some(act(28, 'T', Move::Left)),
            _ => Option::None,
        }
    } else if state == 29 {
        match symbol {
            '0' => Some(act(29, '0', Move::Left)),
            '1' => Some(act(29, '1', Move::Left)),
            '+' => Some(act(32, '+', Move::Left)),
            _ => Option::None,
        }
    } else if state == 30 {
        match symbol {
            '0' => Some(act(30, '0', Move::Left)),
            '1' => Some(act(30, '1', Move::Left)),
            '+' => Some(act(33, '+', Move::Left)),
            _ => Option::None,
        }
    } else if state == 31 {
        match symbol {
            '0' => Some(act(20, 'F', Move::Right)),
            '1' => Some(act(22, 'T', Move::Right)),
            'F' => Some(act(31, 'F', Move::Left)),
            'T' => Some(act(31, 'T', Move::Left)),
            '_' => Some(act(34, '_', Move::Right)),
            _ => Option::None,
        }
    } else if state == 32 {
        match symbol {
            '0' => Some(act(20, 'F', Move::Right)),
            '1' => Some(act(22, 'T', Move::Right)),
            'F' => Some(act(32, 'F', Move::Left)),
            'T' => Some(act(32, 'T', Move::Left)),
            '_' => Some(act(20, '_', Move::Right)),
            _ => Option::None,
        }
    } else if state == 33 {
        match symbol {
            '0' => Some(act(22, 'F', Move::Right)),
            '1' => Some(act(35, 'T', Move::Right)),
            'F' => Some(act(33, 'F', Move::Left)),
            'T' => Some(act(33, 'T', Move::Left)),
            '_' => Some(act(22, '_', Move::Right)),
            _ => Option::None,
        }
    } else if state == 34 {
        match symbol {
            '0' => Some(act(34, '0', Move::Right)),
            '1' => Some(act(34, '1', Move::Right)),
            '+' => Some(act(34, '+', Move::Right)),
            'F' => Some(act(34, '0', Move::Right)),
            'T' => Some(act(34, '1', Move::Right)),
            '=' => Some(act(36, '=', Move::Right)),
            _ => Option::None,
        }
    } else if state == 35 {
        match symbol {
            '0' => Some(act(35, '0', Move::Right)),
            '1' => Some(act(35, '1', Move::Right)),
            '+' => Some(act(35, '+', Move::Right)),
            'F' => Some(act(35, 'F', Move::Right)),
            'T' => Some(act(35, 'T', Move::Right)),
            '=' => Some(act(35, '=', Move::Right)),
            '?' => Some(act(35, '?', Move::Right)),
            '_' => Some(act(37, '_', Move::Left)),
            _ => Option::None,
        }
    } else if state == 36 {
        match symbol {
            '0' => Some(act(38, '0', Move::Left)),
            '1' => Some(act(38, '1', Move::Left)),
            '?' => Some(act(36, '?', Move::Right)),
            _ => Option::None,
        }
    } else if state == 37 {
        match symbol {
            '0' => Some(act(37, '0', Move::Left)),
            '1' => Some(act(37, '1', Move::Left)),
            '?' => Some(act(27, '1', Move::Left)),
            _ => Option::None,
        }
    } else if state == 38 {
        match symbol {
            '?' => Some(act(39, '1', Move::Left)),
            _ => Option::None,
        }
    } else if state == 39 {
        match symbol {
            '?' => Some(act(39, '0', Move::Left)),
            '=' => Some(act(0, '=', Move::Stay)),
            _ => Option::None,
        }
    } else {
        Option::None
    }
}

/// The adding machine's table as a map from heads to instructions.
pub open spec fn add_table() -> Map<(nat, char), Action> {
    Map::new(|k: (nat, char)| add_action(k.0, k.1) is Some, |k: (nat, char)| add_action(k.0, k.1)->Some_0)
}

/// The adding machine's instructions for the states from `low` to `high`.
pub open spec fn add_table_states(low: nat, high: nat) -> Map<(nat, char), Action> {
    Map::new(
        |k: (nat, char)| low <= k.0 <= high && add_action(k.0, k.1) is Some,
        |k: (nat, char)| add_action(k.0, k.1)->Some_0,
    )
}

/// States 1 to 6: walk to the blank after `=`, then mark one digit of each
/// addend, right to left, laying out one unknown digit `?` of the sum for each.
fn seek_rules() -> (rules: Vec<Rule>)
    ensures
        rules_fit(add_alphabet(), 40, rules@),
        forall|table: Map<(nat, char), Action>|
            #[trigger] insert_rules(table, rules@, rules@.len()) == table.union_prefer_right(
                add_table_states(1, 6),
            ),
{
    let rules: Vec<Rule> = vec![
        // Initial State: State 1

        // State-1: seeking-equals

        // If we find something other than '=', skip it & keep seeking right
        (1, '0', 1, '0', Move::Right),
        (1, '1', 1, '1', Move::Right),
        (1, '+', 1, '+', Move::Right),
        (1, 'F', 1, 'F', Move::Right),
        (1, 'T', 1, 'T', Move::Right),

        // When we find the '=', skip it and step right
        // Transition to State 2: marking-most-significant-bit
        (1, '=', 2, '=', Move::Right),

        // '_' is not expected to occur here

        // State-2: marking-most-significant-bit
        // Mark this as an indeterminate bit, possibly the most significant bit
        // of the answer
        // Transition to State 3: seeking-arg1-least-unmarked-bit
        (2, '_', 3, '?', Move::Left),

        // No other symbol is expected to occur here

        // State-3: seeking-arg1-least-unmarked-bit

        // When we find an unmarked bit, mark it
        // Transition to State 4: seeking-plus-arg0-least-unmarked-bit
        (3, '0', 4, 'F', Move::Left),
        (3, '1', 4, 'T', Move::Left),

        // If we find the '+', there are no unmarked bits left in arg1
        // Transition to State 5: seeking-arg0-alone-least-unmarked-bit
        (3, '+', 5, '+', Move::Left),

        // Skip marked bits and continue
        (3, 'F', 3, 'F', Move::Left),
        (3, 'T', 3, 'T', Move::Left),
        // Skip the equals sign and continue
        (3, '=', 3, '=', Move::Left),
        // Skip the '?' (previous indeterminate bits) and continue
        (3, '?', 3, '?', Move::Left),

        // The '_' is not expected to occur here

        // State 4: seeking-plus-arg0-least-unmarked-bit

        // Skip unmarked bits (these are still in arg1) and continue
        (4, '0', 4, '0', Move::Left),
        (4, '1', 4, '1', Move::Left),

        // Found plus
        // Transition to State 6: seeking-arg0-least-unmarked-bit
        (4, '+', 6, '+', Move::Left),

        // State 5: seeking-arg0-alone-least-unmarked-bit

        // When we find an unmarked bit, mark it
        // Transition to State 7: add-one-indeterminate-bit-from-arg0
        (5, '0', 7, 'F', Move::Right),
        (5, '1', 7, 'T', Move::Right),

        // Skip marked bits and continue
        (5, 'F', 5, 'F', Move::Left),
        (5, 'T', 5, 'T', Move::Left),

        // Skip '+', '=', and '?' and continue
        (5, '+', 5, '+', Move::Left),
        (5, '=', 5, '=', Move::Left),
        (5, '?', 5, '?', Move::Left),

        // If we find a '_', there are no unmarked bits left in arg0 either
        // Transition to State 11: initialize
        (5, '_', 11, '_', Move::Right),

        // State 6: seeking-arg0-least-unmarked-bit

        // When we find an unmarked bit, mark it
        // Transition to State 8: add-one-indeterminate-bit-from-both
        (6, '0', 8, 'F', Move::Right),
        (6, '1', 8, 'T', Move::Right),

        // Skip marked bits and continue
        (6, 'F', 6, 'F', Move::Left),
        (6, 'T', 6, 'T', Move::Left),

        // If we find a '_', there are no unmarked bits left in arg0
        // Transition to State 9: add-one-indeterminate-bit-from-arg1
        (6, '_', 9, '_', Move::Right),
    ];
    assert forall|table: Map<(nat, char), Action>|
        #[trigger] insert_rules(table, rules@, rules@.len()) == table.union_prefer_right(
            add_table_states(1, 6),
        ) by {
        reveal_with_fuel(insert_rules, 60);
        assert(insert_rules(table, rules@, rules@.len()) =~= table.union_prefer_right(
            add_table_states(1, 6),
        ));
    }
    proof {
        let letters = add_alphabet();
        assert(letters[0] == '0' && letters[1] == '1' && letters[2] == '+' && letters[3] == 'F');
        assert(letters[4] == 'T' && letters[5] == '=' && letters[6] == '?' && letters[7] == '_');
        reveal_with_fuel(rules_fit_upto, 60);
        assert(rules_fit_upto(letters, 40, rules@, rules@.len()));
        lemma_rules_fit_upto(letters, 40, rules@, rules@.len());
    }
    rules
}

/// States 7 to 12: lay out the remaining unknown digits of the sum, one for each
/// digit of the longer addend and one more, walk back to the left end and
/// unmark the addends.
fn layout_rules() -> (rules: Vec<Rule>)
    ensures
        rules_fit(add_alphabet(), 40, rules@),
        forall|table: Map<(nat, char), Action>|
            #[trigger] insert_rules(table, rules@, rules@.len()) == table.union_prefer_right(
                add_table_states(7, 12),
            ),
{
    let rules: Vec<Rule> = vec![
        // State 7: add-one-indeterminate-bit-from-arg0

        // Skip non-blank symbols and continue
        (7, '0', 7, '0', Move::Right),
        (7, '1', 7, '1', Move::Right),
        (7, '+', 7, '+', Move::Right),
        (7, 'F', 7, 'F', Move::Right),
        (7, 'T', 7, 'T', Move::Right),
        (7, '=', 7, '=', Move::Right),
        (7, '?', 7, '?', Move::Right),

        // On finding a blank, write an indeterminate bit
        // There are no unmarked bits left in arg1
        // Transition to State 5: seeking-arg0-alone-least-unmarked-bit
        (7, '_', 5, '?', Move::Left),

        // State 8: add-one-indeterminate-bit-from-both

        // Skip non-blank symbols and continue
        (8, '0', 8, '0', Move::Right),
        (8, '1', 8, '1', Move::Right),
        (8, '+', 8, '+', Move::Right),
        (8, 'F', 8, 'F', Move::Right),
        (8, 'T', 8, 'T', Move::Right),
        (8, '=', 8, '=', Move::Right),
        (8, '?', 8, '?', Move::Right),

        // On finding a blank, write an indeterminate bit
        // Transition to State 3: seeking-arg1-least-unmarked-bit
        (8, '_', 3, '?', Move::Left),

        // State 9: add-one-indeterminate-bit-from-arg1

        // Skip non-blank symbols and continue
        (9, '0', 9, '0', Move::Right),
        (9, '1', 9, '1', Move::Right),
        (9, '+', 9, '+', Move::Right),
        (9, 'F', 9, 'F', Move::Right),
        (9, 'T', 9, 'T', Move::Right),
        (9, '=', 9, '=', Move::Right),
        (9, '?', 9, '?', Move::Right),

        // On finding a blank, write an indeterminate bit
        // There are no unmarked bits left in arg0
        // Transition to State 10: seeking-arg1-alone-least-unmarked-bit
        (9, '_', 10, '?', Move::Left),

        // State 10: seeking-arg1-alone-least-unmarked-bit

        // When we find an unmarked bit, mark it
        // Transition to State 9: add-one-indeterminate-bit-from-arg1
        (10, '0', 9, 'F', Move::Right),
        (10, '1', 9, 'T', Move::Right),

        // Skip marked bits and continue
        (10, 'F', 10, 'F', Move::Left),
        (10, 'T', 10, 'T', Move::Left),

        // Skip '=' and '?' and continue
        (10, '=', 10, '=', Move::Left),
        (10, '?', 10, '?', Move::Left),

        // If we find a '+', there are no unmarked bits left in arg1 either
        // Transition to State 12: seeking-left-blank
        (10, '+', 12, '+', Move::Left),

        // State 11: initialize

        // Skip unmarked bits and continue
        (11, '0', 11, '0', Move::Right),
        (11, '1', 11, '1', Move::Right),

        // Skip '+' and continue
        (11, '+', 11, '+', Move::Right),

        // Unmark marked bits
        (11, 'F', 11, '0', Move::Right),
        (11, 'T', 11, '1', Move::Right),

        // Found '='
        // Transition to State 13: add-arg1-least-unmarked-bit
        (11, '=', 13, '=', Move::Left),

        // State 12: seeking-left-blank

        // Skip all non-blank characters and continue
        (12, '0', 12, '0', Move::Left),
        (12, '1', 12, '1', Move::Left),
        (12, '+', 12, '+', Move::Left),
        (12, 'F', 12, 'F', Move::Left),
        (12, 'T', 12, 'T', Move::Left),
        (12, '=', 12, '=', Move::Left),
        (12, '?', 12, '?', Move::Left),

        // Found '_'
        // Transition to State 11: initialize
        (12, '_', 11, '_', Move::Right),
    ];
    assert forall|table: Map<(nat, char), Action>|
        #[trigger] insert_rules(table, rules@, rules@.len()) == table.union_prefer_right(
            add_table_states(7, 12),
        ) by {
        reveal_with_fuel(insert_rules, 60);
        assert(insert_rules(table, rules@, rules@.len()) =~= table.union_prefer_right(
            add_table_states(7, 12),
        ));
    }
    proof {
        let letters = add_alphabet();
        assert(letters[0] == '0' && letters[1] == '1' && letters[2] == '+' && letters[3] == 'F');
        assert(letters[4] == 'T' && letters[5] == '=' && letters[6] == '?' && letters[7] == '_');
        reveal_with_fuel(rules_fit_upto, 60);
        assert(rules_fit_upto(letters, 40, rules@, rules@.len()));
        lemma_rules_fit_upto(letters, 40, rules@, rules@.len());
    }
    rules
}

/// States 13 to 22: add a digit of each addend, least significant first, and
/// carry the sum digit to the right end of the tape; state 21 finishes a sum
/// without a final carry.
fn digit_rules() -> (rules: Vec<Rule>)
    ensures
        rules_fit(add_alphabet(), 40, rules@),
        forall|table: Map<(nat, char), Action>|
            #[trigger] insert_rules(table, rules@, rules@.len()) == table.union_prefer_right(
                add_table_states(13, 22),
            ),
{
    let rules: Vec<Rule> = vec![
        // State 13: add-arg1-least-unmarked-bit

        // Found unmarked bit
        // Mark the bit
        // Transition to State 14: find-arg0-add-least-unmarked-bit-to-0
        //            or State 15: find-arg0-add-least-unmarked-bit-to-1
        (13, '0', 14, 'F', Move::Left),
        (13, '1', 15, 'T', Move::Left),

        // Found '+'
        // There are no unmarked bits left in arg1
        // Transition to State 16: transfer-arg0-least-unmarked-bit
        (13, '+', 16, '+', Move::Left),

        // Skip marked bits and continue
        (13, 'F', 13, 'F', Move::Left),
        (13, 'T', 13, 'T', Move::Left),

        // State 14: find-arg0-add-least-unmarked-bit-to-0 and
        // State 15: find-arg0-add-least-unmarked-bit-to-1

        // Skip unmarked bits (of arg1) and continue
        (14, '0', 14, '0', Move::Left),
        (15, '0', 15, '0', Move::Left),
        (14, '1', 14, '1', Move::Left),
        (15, '1', 15, '1', Move::Left),

        // Found '+'
        // Transition to State 17: add-least-arg0-unmarked-bit-to-0 or
        //               State 18: add-least-arg0-unmarked-bit-to-1
        (14, '+', 17, '+', Move::Left),
        (15, '+', 18, '+', Move::Left),

        // State 16: transfer-arg0-least-unmarked-bit

        // Found unmarked bit
        // Mark it and transfer it
        // Transition to State 19: seek-end-of-sum-transfer-0
        //            or State 20: seek-end-of-sum-transfer-1
        (16, '0', 19, 'F', Move::Right),
        (16, '1', 20, 'T', Move::Right),

        // Found marked bit
        // Skip and continue
        (16, 'F', 16, 'F', Move::Left),
        (16, 'T', 16, 'T', Move::Left),

        // Found '_'
        // There are no unmarked bits left in arg0 either
        // Transition to State 21: unmark-right-and-halt
        (16, '_', 21, '_', Move::Right),

        // State 17: add-least-arg0-unmarked-bit-to-0 and
        // State 18: add-least-arg0-unmarked-bit-to-1

        // Found unmarked bit
        // Mark the bit
        // Transfer the sum to the least unmarked sum bit
        // Remember the carry if any
        // Transition to State 19: seek-end-of-sum-transfer-0
        //        or State 20: seek-end-of-sum-transfer-1
        //        or State 22: seek-end-of-sum-transfer-0-with-carry
        (17, '0', 19, 'F', Move::Right),
        (18, '0', 20, 'F', Move::Right),
        (17, '1', 20, 'T', Move::Right),
        (18, '1', 22, 'T', Move::Right),

        // Skip marked bits and continue
        (17, 'F', 17, 'F', Move::Left),
        (18, 'F', 18, 'F', Move::Left),
        (17, 'T', 17, 'T', Move::Left),
        (18, 'T', 18, 'T', Move::Left),

        // Found '_'
        // There are no unmarked bits left in arg0
        // Transfer the bit we have to the sum bit
        (17, '_', 19, '_', Move::Right),
        (18, '_', 20, '_', Move::Right),

        // State 19: seek-end-of-sum-transfer-0 or
        // State 20: seek-end-of-sum-transfer-1 or
        // State 22: seek-end-of-sum-transfer-0-with-carry

        // Skip non-blank characters and continue
        (19, '0', 19, '0', Move::Right),
        (20, '0', 20, '0', Move::Right),
        (22, '0', 22, '0', Move::Right),
        (19, '1', 19, '1', Move::Right),
        (20, '1', 20, '1', Move::Right),
        (22, '1', 22, '1', Move::Right),
        (19, '+', 19, '+', Move::Right),
        (20, '+', 20, '+', Move::Right),
        (22, '+', 22, '+', Move::Right),
        (19, 'F', 19, 'F', Move::Right),
        (20, 'F', 20, 'F', Move::Right),
        (22, 'F', 22, 'F', Move::Right),
        (19, 'T', 19, 'T', Move::Right),
        (20, 'T', 20, 'T', Move::Right),
        (22, 'T', 22, 'T', Move::Right),
        (19, '=', 19, '=', Move::Right),
        (20, '=', 20, '=', Move::Right),
        (22, '=', 22, '=', Move::Right),
        (19, '?', 19, '?', Move::Right),
        (20, '?', 20, '?', Move::Right),
        (22, '?', 22, '?', Move::Right),

        // Found blank character
        // Start seeking indeterminate character in sum to transfer to
        // Transition to State 23: seek-least-indeterminate-transfer-0
        //        or State 24: seek-least-indeterminate-transfer-1
        //        or State 25: seek-least-indeterminate-transfer-0-with-carry
        (19, '_', 23, '_', Move::Left),
        (20, '_', 24, '_', Move::Left),
        (22, '_', 25, '_', Move::Left),

        // State 21: unmark-right-and-halt

        // Skip unmarked bits and continue
        (21, '0', 21, '0', Move::Right),
        (21, '1', 21, '1', Move::Right),

        // Skip '+' and continue
        (21, '+', 21, '+', Move::Right),

        // Found marked bit
        // Unmark it and continue
        (21, 'F', 21, '0', Move::Right),
        (21, 'T', 21, '1', Move::Right),

        // Skip '=' and continue
        (21, '=', 21, '=', Move::Right),

        // Found '?'
        // Turn it into a '0' and continue
        (21, '?', 21, '0', Move::Right),

        // Found '_'
        // We are done, so halt
        (21, '_', 0, '_', Move::Stay),
    ];
    assert forall|table: Map<(nat, char), Action>|
        #[trigger] insert_rules(table, rules@, rules@.len()) == table.union_prefer_right(
            add_table_states(13, 22),
        ) by {
        reveal_with_fuel(insert_rules, 60);
        assert(insert_rules(table, rules@, rules@.len()) =~= table.union_prefer_right(
            add_table_states(13, 22),
        ));
    }
    proof {
        let letters = add_alphabet();
        assert(letters[0] == '0' && letters[1] == '1' && letters[2] == '+' && letters[3] == 'F');
        assert(letters[4] == 'T' && letters[5] == '=' && letters[6] == '?' && letters[7] == '_');
        reveal_with_fuel(rules_fit_upto, 60);
        assert(rules_fit_upto(letters, 40, rules@, rules@.len()));
        lemma_rules_fit_upto(letters, 40, rules@, rules@.len());
    }
    rules
}

/// States 23 to 33: write the sum digit in the rightmost unknown place and add
/// the next digits with a carry.
fn write_rules() -> (rules: Vec<Rule>)
    ensures
        rules_fit(add_alphabet(), 40, rules@),
        forall|table: Map<(nat, char), Action>|
            #[trigger] insert_rules(table, rules@, rules@.len()) == table.union_prefer_right(
                add_table_states(23, 33),
            ),
{
    let rules: Vec<Rule> = vec![
        // State 23: seek-least-indeterminate-transfer-0
        // State 24: seek-least-indeterminate-transfer-1
        // State 25: seek-least-indeterminate-transfer-0-with-carry

        // Skip determinate bits and continue
        (23, '0', 23, '0', Move::Left),
        (24, '0', 24, '0', Move::Left),
        (25, '0', 25, '0', Move::Left),
        (23, '1', 23, '1', Move::Left),
        (24, '1', 24, '1', Move::Left),
        (25, '1', 25, '1', Move::Left),

        // Found indeterminate bit
        // Fill it with the appropriate sum
        // Transition to State 26: seeking-equals-no-carry
        //            or State 27: seeking-equals-with-carry
        (23, '?', 26, '0', Move::Left),
        (24, '?', 26, '1', Move::Left),
        (25, '?', 27, '0', Move::Left),

        // State 26: seeking-equals-no-carry

        // Skip indeterminate bits
        (26, '?', 26, '?', Move::Left),

        // Found '=' sign
        // Transition to State 13: add-arg1-least-unmarked-bit
        (26, '=', 13, '=', Move::Left),

        // State 27: seeking-equals-with-carry

        // Skip indeterminate bits
        (27, '?', 27, '?', Move::Left),

        // Found '=' sign
        // Transition to State 28: add-arg1-least-unmarked-bit-with-carry
        (27, '=', 28, '=', Move::Left),

        // State 28: add-arg1-least-unmarked-bit-with-carry

        // Found unmarked bit
        // Mark the bit
        // Transition to State 29: find-arg0-add-least-unmarked-bit-to-0-carry
        //            or State 30: find-arg0-add-least-unmarked-bit-to-1-carry
        (28, '0', 29, 'F', Move::Left),
        (28, '1', 30, 'T', Move::Left),

        // Found '+'
        // There are no unmarked bits left in arg1
        // Transition to State 31: transfer-arg0-least-unmarked-bit-carry
        (28, '+', 31, '+', Move::Left),

        // Skip marked bits and continue
        (28, 'F', 28, 'F', Move::Left),
        (28, 'T', 28, 'T', Move::Left),

        // State 29: find-arg0-add-least-unmarked-bit-to-0-carry and
        // State 30: find-arg0-add-least-unmarked-bit-to-1-carry

        // Skip unmarked bits (of arg1) and continue
        (29, '0', 29, '0', Move::Left),
        (30, '0', 30, '0', Move::Left),
        (29, '1', 29, '1', Move::Left),
        (30, '1', 30, '1', Move::Left),

        // Found '+'
        // Transition to State 32: add-least-arg0-unmarked-bit-to-0-carry or
        //               State 33: add-least-arg0-unmarked-bit-to-1-carry
        (29, '+', 32, '+', Move::Left),
        (30, '+', 33, '+', Move::Left),

        // State 31: transfer-arg0-least-unmarked-bit-carry

        // Found unmarked bit
        // Mark it, add the carry bit to it, and transfer the result
        // Transition to State 20: seek-end-of-sum-transfer-1
        //            or State 22: seek-end-of-sum-transfer-0-with-carry
        (31, '0', 20, 'F', Move::Right),
        (31, '1', 22, 'T', Move::Right),

        // Found marked bit
        // Skip and continue
        (31, 'F', 31, 'F', Move::Left),
        (31, 'T', 31, 'T', Move::Left),

        // Found '_'
        // There are no unmarked bits left in arg0 either
        // Transition to State 34: unmark-right-with-carry
        (31, '_', 34, '_', Move::Right),

        // State 32: add-least-arg0-unmarked-bit-to-0-carry and
        // State 33: add-least-arg0-unmarked-bit-to-1-carry

        // Found unmarked bit
        // Mark the bit
        // Transfer the sum including carry to the least unmarked sum bit
        // Remember the further carry if any
        // Transition to State 20: seek-end-of-sum-transfer-1
        //            or State 22: seek-end-of-sum-transfer-0-with-carry
        //            or State 35: seek-end-of-sum-transfer-1-with-carry
        (32, '0', 20, 'F', Move::Right),
        (33, '0', 22, 'F', Move::Right),
        (32, '1', 22, 'T', Move::Right),
        (33, '1', 35, 'T', Move::Right),

        // Skip marked bits and continue
        (32, 'F', 32, 'F', Move::Left),
        (33, 'F', 33, 'F', Move::Left),
        (32, 'T', 32, 'T', Move::Left),
        (33, 'T', 33, 'T', Move::Left),

        // Found '_'
        // There are no unmarked bits left in arg0
        // Transfer the bit we have to the sum bit
        (32, '_', 20, '_', Move::Right),
        (33, '_', 22, '_', Move::Right),
    ];
    assert forall|table: Map<(nat, char), Action>|
        #[trigger] insert_rules(table, rules@, rules@.len()) == table.union_prefer_right(
            add_table_states(23, 33),
        ) by {
        reveal_with_fuel(insert_rules, 60);
        assert(insert_rules(table, rules@, rules@.len()) =~= table.union_prefer_right(
            add_table_states(23, 33),
        ));
    }
    proof {
        let letters = add_alphabet();
        assert(letters[0] == '0' && letters[1] == '1' && letters[2] == '+' && letters[3] == 'F');
        assert(letters[4] == 'T' && letters[5] == '=' && letters[6] == '?' && letters[7] == '_');
        reveal_with_fuel(rules_fit_upto, 60);
        assert(rules_fit_upto(letters, 40, rules@, rules@.len()));
        lemma_rules_fit_upto(letters, 40, rules@, rules@.len());
    }
    rules
}

/// States 34 to 39: finish a sum with a final carry.
fn carry_rules() -> (rules: Vec<Rule>)
    ensures
        rules_fit(add_alphabet(), 40, rules@),
        forall|table: Map<(nat, char), Action>|
            #[trigger] insert_rules(table, rules@, rules@.len()) == table.union_prefer_right(
                add_table_states(34, 39),
            ),
{
    let rules: Vec<Rule> = vec![
        // State 34: unmark-right-with-carry

        // Skip unmarked bits and continue
        (34, '0', 34, '0', Move::Right),
        (34, '1', 34, '1', Move::Right),

        // Skip '+' and continue
        (34, '+', 34, '+', Move::Right),

        // Found marked bit
        // Unmark it and continue
        (34, 'F', 34, '0', Move::Right),
        (34, 'T', 34, '1', Move::Right),

        // Found '=' sign
        // Transition to State 36: seeking-most-determined-sum-bit-last-carry
        (34, '=', 36, '=', Move::Right),

        // State 35: seek-end-of-sum-transfer-1-with-carry

        // Skip non-blank characters and continue
        (35, '0', 35, '0', Move::Right),
        (35, '1', 35, '1', Move::Right),
        (35, '+', 35, '+', Move::Right),
        (35, 'F', 35, 'F', Move::Right),
        (35, 'T', 35, 'T', Move::Right),
        (35, '=', 35, '=', Move::Right),
        (35, '?', 35, '?', Move::Right),

        // Found blank character
        // Start seeking indeterminate character in sum to transfer to
        // Transition to
        //      State 37: seek-least-indeterminate-transfer-1-with-carry
        (35, '_', 37, '_', Move::Left),

        // State 36: seeking-most-determined-sum-bit-last-carry

        // Found determinate bit: leave it as it is, it is a digit of the sum
        // Transition to State 38: write-final-carry
        (36, '0', 38, '0', Move::Left),
        (36, '1', 38, '1', Move::Left),

        // Skip indeterminate bit and continue
        (36, '?', 36, '?', Move::Right),

        // State 37: seek-least-indeterminate-transfer-1-with-carry

        // Skip determinate bits and continue
        (37, '0', 37, '0', Move::Left),
        (37, '1', 37, '1', Move::Left),

        // Found indeterminate bit
        // Fill it with the 1
        // Transition to State 27: seeking-equals-with-carry
        (37, '?', 27, '1', Move::Left),

        // State 38: write-final-carry

        // Found indeterminate bit
        // Fill it with the 1 from the final carry
        // Transition to State 39: zero-remaining-indeterminates
        (38, '?', 39, '1', Move::Left),

        // State 39: zero-remaining-indeterminates

        // Found indeterminate bit
        // Turn it into a 0 and continue
        (39, '?', 39, '0', Move::Left),

        // Found '=' sign
        // Halt
        (39, '=', 0, '=', Move::Stay),
    ];
    assert forall|table: Map<(nat, char), Action>|
        #[trigger] insert_rules(table, rules@, rules@.len()) == table.union_prefer_right(
            add_table_states(34, 39),
        ) by {
        reveal_with_fuel(insert_rules, 60);
        assert(insert_rules(table, rules@, rules@.len()) =~= table.union_prefer_right(
            add_table_states(34, 39),
        ));
    }
    proof {
        let letters = add_alphabet();
        assert(letters[0] == '0' && letters[1] == '1' && letters[2] == '+' && letters[3] == 'F');
        assert(letters[4] == 'T' && letters[5] == '=' && letters[6] == '?' && letters[7] == '_');
        reveal_with_fuel(rules_fit_upto, 60);
        assert(rules_fit_upto(letters, 40, rules@, rules@.len()));
        lemma_rules_fit_upto(letters, 40, rules@, rules@.len());
    }
    rules
}

/// The instructions of the adding machine. `F` and `T` are the marked forms of
/// `0` and `1`, `?` is a digit of the sum not yet known, `_` is the blank.
pub fn add_rules() -> (rules: Vec<Rule>)
    ensures
        insert_rules(Map::empty(), rules@, rules@.len()) == add_table(),
        rules_fit(add_alphabet(), 40, rules@),
{
    let mut rules = seek_rules();
    let mut more = layout_rules();
    let ghost first = rules@;
    let ghost second = more@;
    rules.append(&mut more);
    proof {
        lemma_insert_rules_append(Map::empty(), first, second, second.len());
        lemma_rules_fit_append(add_alphabet(), 40, first, second);
    }
    let ghost sofar = rules@;
    let mut more = digit_rules();
    let ghost third = more@;
    rules.append(&mut more);
    proof {
        lemma_insert_rules_append(Map::empty(), sofar, third, third.len());
        lemma_rules_fit_append(add_alphabet(), 40, sofar, third);
    }
    let ghost sofar = rules@;
    let mut more = write_rules();
    let ghost fourth = more@;
    rules.append(&mut more);
    proof {
        lemma_insert_rules_append(Map::empty(), sofar, fourth, fourth.len());
        lemma_rules_fit_append(add_alphabet(), 40, sofar, fourth);
    }
    let ghost sofar = rules@;
    let mut more = carry_rules();
    let ghost fifth = more@;
    rules.append(&mut more);
    proof {
        lemma_insert_rules_append(Map::empty(), sofar, fifth, fifth.len());
        lemma_rules_fit_append(add_alphabet(), 40, sofar, fifth);
        assert(insert_rules(Map::empty(), rules@, rules@.len()) =~= add_table());
    }
    rules
}

/// Builds the adding machine in the engine.
pub fn add_machine() -> (r: Result<EngineMachine, String>)
    ensures
        r matches Ok(m) && machine_view(m) == add_model(),
{
    let alphabet = vec!['0', '1', '+', 'F', 'T', '=', '?', '_'];
    let rules = add_rules();
    proof {
        assert(alphabet@ =~= add_alphabet());
        assert(alphabet@[7] == '_');
    }
    build_machine(alphabet, 40, &rules, '_')
}

/// The expression the adding machine starts from: `a+b=`.
pub open spec fn expression(a: Seq<char>, b: Seq<char>) -> Seq<char> {
    a + seq!['+'] + b + seq!['=']
}

/// Adds two non-empty strings of binary digits with the adding machine: the text
/// of the tape it starts from is `a+b=`, the text of the tape it leaves is
/// `a+b=` followed by the digits of the sum.
pub fn add_binary(arg0: &str, arg1: &str) -> (r: Result<Transcript, String>)
    requires
        all_binary(arg0@),
        all_binary(arg1@),
        arg0@.len() > 0,
        arg1@.len() > 0,
    ensures
        r matches Ok(t) && t.input@ == expression(arg0@, arg1@) && t.output@ == expression(arg0@, arg1@)
            + sum_digits(arg0@, arg1@),
        r matches Ok(t) ==> binary_value(t.output@.skip(expression(arg0@, arg1@).len() as int))
            == binary_value(arg0@) + binary_value(arg1@),
{
    let machine = match add_machine() {
        Ok(machine) => machine,
        Err(message) => {
            return Err(message);
        },
    };
    let mut tape = chars_of(arg0);
    tape.push('+');
    let mut second = chars_of(arg1);
    tape.append(&mut second);
    tape.push('=');
    tape.push('_');
    let ghost a = arg0@;
    let ghost b = arg1@;
    let ghost start = tape@;
    let shown = visible_text(&tape, '_');
    proof {
        assert(start =~= addition_input(a, b));
        lemma_add_machine_halts(a, b);
        lemma_halting_is_determined(add_model(), start_conf(start), addition_output(a, b));
        crate::adder::lemma_sum_digits_value(a, b);
        lemma_expression_has_no_blank(a, b, Seq::<char>::empty());
        lemma_expression_has_no_blank(a, b, sum_digits(a, b));
        assert(start =~= expression(a, b) + seq!['_']);
        lemma_without_blanks_append(expression(a, b), seq!['_'], '_');
        lemma_without_blanks_single('_', '_');
        assert(expression(a, b) + Seq::<char>::empty() =~= expression(a, b));
    }
    let finished = match run_machine(&machine, tape) {
        Ok(finished) => finished,
        Err(message) => {
            return Err(message);
        },
    };
    let output = visible_text(&finished, '_');
    proof {
        let middle = expression(a, b) + sum_digits(a, b);
        assert(addition_output(a, b) =~= seq!['_'] + middle + seq!['_']);
        lemma_without_blanks_append(seq!['_'], middle, '_');
        lemma_without_blanks_append(seq!['_'] + middle, seq!['_'], '_');
        assert(Seq::<char>::empty() + middle =~= middle);
        assert(middle + Seq::<char>::empty() =~= middle);
        assert(middle.skip(expression(a, b).len() as int) =~= sum_digits(a, b));
    }
    Ok(Transcript { input: shown, output })
}

/// `a+b=` followed by the binary digits `s` holds no blank.
proof fn lemma_expression_has_no_blank(a: Seq<char>, b: Seq<char>, s: Seq<char>)
    requires
        all_binary(a),
        all_binary(b),
        all_binary(s),
    ensures
        without_blanks(expression(a, b) + s, '_') == expression(a, b) + s,
{
    let e = expression(a, b) + s;
    assert forall|i: int| 0 <= i < e.len() implies e[i] != '_' by {
        let p = a.len() as int;
        let q = b.len() as int;
        if i < p {
            assert(e[i] == a[i]);
            assert(is_binary_digit(a[i]));
        } else if p < i < p + 1 + q {
            assert(e[i] == b[i - p - 1]);
            assert(is_binary_digit(b[i - p - 1]));
        } else if i > p + q + 1 {
            assert(e[i] == s[i - p - q - 2]);
            assert(is_binary_digit(s[i - p - q - 2]));
        }
    }
    lemma_without_blanks_none(e, '_');
}

/// An addend as the command line takes it: the empty string stands for `0`.
pub open spec fn addend(s: Seq<char>) -> Seq<char> {
    if s.len() == 0 {
        seq!['0']
    } else {
        s
    }
}

/// Validates both arguments as the command line does, then adds them.
pub fn run(arg0: &str, arg1: &str) -> (r: Result<Transcript, String>)
    ensures
        r is Ok <==> all_binary(arg0@) && all_binary(arg1@),
        r matches Ok(t) ==> t.input@ == expression(addend(arg0@), addend(arg1@)) && t.output@
            == expression(addend(arg0@), addend(arg1@)) + sum_digits(addend(arg0@), addend(arg1@)),
        r matches Err(msg) ==> msg@ == not_binary_message(),
{
    let first = match is_binary_string(arg0) {
        Ok(first) => first,
        Err(message) => {
            return Err(message);
        },
    };
    let second = match is_binary_string(arg1) {
        Ok(second) => second,
        Err(message) => {
            return Err(message);
        },
    };
    proof {
        assert(all_binary(seq!['0']));
    }
    add_binary(first.as_str(), second.as_str())
}

} // verus!
