use turing_tapes::binary_add::{add_binary, add_machine, add_rules, is_binary_string, run};

fn value(digits: &str) -> u64 {
    digits.chars().fold(0, |v, c| 2 * v + if c == '1' { 1 } else { 0 })
}

#[test]
fn addend_validation() {
    assert_eq!(is_binary_string("101"), Ok("101".to_string()));
    assert_eq!(is_binary_string(""), Ok("0".to_string()));
    assert_eq!(
        is_binary_string("1+1"),
        Err("Input is not a string of 0s and 1s".to_string())
    );
}

#[test]
fn adds_without_final_carry() {
    let t = add_binary("10", "1").unwrap();
    assert_eq!(t.input, "10+1=");
    assert_eq!(t.output, "10+1=011");
}

#[test]
fn adds_with_final_carry() {
    let t = add_binary("11", "11").unwrap();
    assert_eq!(t.output, "11+11=110");
    let t = add_binary("111", "101").unwrap();
    assert_eq!(t.output, "111+101=1100");
}

#[test]
fn adds_addends_of_different_lengths() {
    assert_eq!(add_binary("1", "1011").unwrap().output, "1+1011=01100");
    assert_eq!(add_binary("1011", "1").unwrap().output, "1011+1=01100");
}

#[test]
fn adds_zeros() {
    assert_eq!(add_binary("0", "0").unwrap().output, "0+0=00");
}

#[test]
fn adds_every_pair_of_short_numerals() {
    for la in 1..5u32 {
        for lb in 1..5u32 {
            for x in 0..(1u32 << la) {
                for y in 0..(1u32 << lb) {
                    let a: String = (0..la).rev().map(|i| if x >> i & 1 == 1 { '1' } else { '0' }).collect();
                    let b: String = (0..lb).rev().map(|i| if y >> i & 1 == 1 { '1' } else { '0' }).collect();
                    let t = add_binary(&a, &b).unwrap();
                    let prefix = format!("{}+{}=", a, b);
                    assert_eq!(t.input, prefix);
                    let sum = &t.output[prefix.len()..];
                    assert_eq!(sum.len() as u32, la.max(lb) + 1);
                    assert_eq!(value(sum), value(&a) + value(&b));
                }
            }
        }
    }
}

#[test]
fn run_takes_empty_arguments_as_zero() {
    assert_eq!(run("", "1").unwrap().output, "0+1=01");
    assert_eq!(run("", "").unwrap().output, "0+0=00");
}

#[test]
fn run_rejects_a_bad_argument() {
    assert_eq!(
        run("10", "2").err(),
        Some("Input is not a string of 0s and 1s".to_string())
    );
    assert!(run("x", "1").is_err());
}

#[test]
fn adding_machine_builds() {
    assert!(add_machine().is_ok());
    assert_eq!(add_rules().len(), 195);
}
