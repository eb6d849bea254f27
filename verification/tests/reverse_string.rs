use turing_tapes::reverse_string::{is_binary_string, reverse_binary, reverse_machine, reverse_rules, run};

#[test]
fn accepts_binary_text() {
    assert_eq!(is_binary_string("0110"), Ok("0110".to_string()));
}

#[test]
fn accepts_empty_text() {
    assert_eq!(is_binary_string(""), Ok(String::new()));
}

#[test]
fn rejects_other_characters() {
    assert_eq!(
        is_binary_string("01a"),
        Err("Input is not a string of 0s and 1s".to_string())
    );
    assert!(is_binary_string("0 1").is_err());
    assert!(is_binary_string("01\n").is_err());
}

#[test]
fn reverses_even_length() {
    let t = reverse_binary("10").unwrap();
    assert_eq!(t.input, "10");
    assert_eq!(t.output, "01");
}

#[test]
fn reverses_even_length_ending_in_one() {
    let t = reverse_binary("0101").unwrap();
    assert_eq!(t.output, "1010");
    let t = reverse_binary("11").unwrap();
    assert_eq!(t.output, "11");
}

#[test]
fn reverses_odd_length() {
    let t = reverse_binary("100").unwrap();
    assert_eq!(t.input, "100");
    assert_eq!(t.output, "001");
}

#[test]
fn reverses_single_digit() {
    assert_eq!(reverse_binary("1").unwrap().output, "1");
    assert_eq!(reverse_binary("0").unwrap().output, "0");
}

#[test]
fn reverses_empty_text() {
    let t = reverse_binary("").unwrap();
    assert_eq!(t.input, "");
    assert_eq!(t.output, "");
}

#[test]
fn reverses_every_short_string() {
    for n in 0..7u32 {
        for bits in 0..(1u32 << n) {
            let text: String = (0..n)
                .map(|i| if bits >> i & 1 == 1 { '1' } else { '0' })
                .collect();
            let expected: String = text.chars().rev().collect();
            assert_eq!(reverse_binary(&text).unwrap().output, expected);
        }
    }
}

#[test]
fn reversing_twice_gives_the_text_back() {
    let once = reverse_binary("1100101").unwrap().output;
    let twice = reverse_binary(&once).unwrap().output;
    assert_eq!(twice, "1100101");
}

#[test]
fn run_validates_then_reverses() {
    assert_eq!(run("1101").unwrap().output, "1011");
    assert_eq!(
        run("12").err(),
        Some("Input is not a string of 0s and 1s".to_string())
    );
}

#[test]
fn reversing_machine_builds() {
    assert!(reverse_machine().is_ok());
}

#[test]
fn reversing_table_has_every_row() {
    let rules = reverse_rules();
    assert_eq!(rules.len(), 46);
    assert_eq!(rules[0], (1, '0', 4, 'F', turing_tapes::machine::Move::Right));
}
