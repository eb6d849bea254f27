use turing_tapes::machine::{build_machine, chars_of, run_machine, visible_text, Move};
use turing_tapes::digits::matches_binary_digits;

#[test]
fn visible_text_drops_blanks() {
    let tape = vec!['_', '1', '0', '_', '1', '_'];
    assert_eq!(visible_text(&tape, '_'), "101");
    assert_eq!(visible_text(&Vec::new(), '_'), "");
}

#[test]
fn chars_in_order() {
    assert_eq!(chars_of("ab+c"), vec!['a', 'b', '+', 'c']);
    assert_eq!(chars_of(""), Vec::<char>::new());
}

#[test]
fn binary_digits_pattern() {
    assert!(matches_binary_digits("0011"));
    assert!(matches_binary_digits(""));
    assert!(!matches_binary_digits("0011\n"));
    assert!(!matches_binary_digits("2"));
}

#[test]
fn a_rule_with_head_state_zero_is_refused() {
    let rules = vec![(0, 'a', 1, 'a', Move::Right)];
    assert!(build_machine(vec!['a', '_'], 1, &rules, '_').is_err());
}

#[test]
fn a_rule_out_of_the_alphabet_is_refused() {
    let rules = vec![(1, 'a', 0, 'b', Move::Right)];
    assert!(build_machine(vec!['a', '_'], 1, &rules, '_').is_err());
}

#[test]
fn a_state_beyond_the_last_is_refused() {
    let rules = vec![(1, 'a', 2, 'a', Move::Right)];
    assert!(build_machine(vec!['a', '_'], 1, &rules, '_').is_err());
}

#[test]
fn a_blank_out_of_the_alphabet_is_refused() {
    let rules = vec![(1, 'a', 0, 'a', Move::Stay)];
    assert!(build_machine(vec!['a'], 1, &rules, '_').is_err());
}

#[test]
fn a_later_rule_replaces_an_earlier_one() {
    let rules = vec![(1, 'a', 0, 'a', Move::Stay), (1, 'a', 0, 'b', Move::Stay)];
    let machine = build_machine(vec!['a', 'b', '_'], 1, &rules, '_').unwrap();
    assert_eq!(run_machine(&machine, vec!['a']).unwrap(), vec!['b']);
}

#[test]
fn moves_add_blank_cells_at_both_ends() {
    let rules = vec![
        (1, 'a', 2, 'b', Move::Left),
        (2, '_', 3, 'c', Move::Right),
        (3, 'b', 4, 'b', Move::Right),
        (4, '_', 0, 'd', Move::Stay),
    ];
    let machine = build_machine(vec!['a', 'b', 'c', 'd', '_'], 4, &rules, '_').unwrap();
    assert_eq!(run_machine(&machine, vec!['a']).unwrap(), vec!['c', 'b', 'd']);
}

#[test]
fn a_stuck_machine_reports_an_error() {
    let rules = vec![(1, 'a', 1, 'a', Move::Right)];
    let machine = build_machine(vec!['a', '_'], 1, &rules, '_').unwrap();
    assert!(run_machine(&machine, vec!['a']).is_err());
}

#[test]
fn an_empty_tape_is_an_error() {
    let rules = vec![(1, 'a', 0, 'a', Move::Stay)];
    let machine = build_machine(vec!['a', '_'], 1, &rules, '_').unwrap();
    assert!(run_machine(&machine, Vec::new()).is_err());
}
