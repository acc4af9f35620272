use monsters::input::{bad_choice_message, check_choice, choose_among, ChoiceError};

#[test]
fn a_typed_number_in_range_is_taken() {
    assert_eq!(check_choice("1\n", 1, 2), Ok(1));
    assert_eq!(check_choice("  2 \r\n", 1, 2), Ok(2));
    assert_eq!(check_choice("+2", 1, 2), Ok(2));
    assert_eq!(check_choice("\u{a0}2\u{3000}", 1, 2), Ok(2));
}

#[test]
fn a_number_out_of_range_is_refused() {
    assert_eq!(check_choice("3\n", 1, 2), Err(ChoiceError::OutOfRange));
    assert_eq!(check_choice("0", 1, 2), Err(ChoiceError::OutOfRange));
    assert_eq!(check_choice("4294967295", 1, 2), Err(ChoiceError::OutOfRange));
}

#[test]
fn anything_else_is_no_number() {
    assert_eq!(check_choice("", 1, 2), Err(ChoiceError::NotANumber));
    assert_eq!(check_choice("\n", 1, 2), Err(ChoiceError::NotANumber));
    assert_eq!(check_choice("abc", 1, 2), Err(ChoiceError::NotANumber));
    assert_eq!(check_choice("1 2", 1, 2), Err(ChoiceError::NotANumber));
    assert_eq!(check_choice("+", 1, 2), Err(ChoiceError::NotANumber));
    assert_eq!(check_choice("-1", 1, 2), Err(ChoiceError::NotANumber));
    assert_eq!(check_choice("++1", 1, 2), Err(ChoiceError::NotANumber));
    assert_eq!(check_choice("4294967296", 1, 2), Err(ChoiceError::NotANumber));
    assert_eq!(check_choice("99999999999999999999", 1, 2), Err(ChoiceError::NotANumber));
}

#[test]
fn choices_agree_with_std_parsing() {
    for line in ["7", " 12 ", "+0", "0012", "1_0", "12a", "\t5\n", "-0", "", "4294967295", "4294967296"] {
        let expected = match line.trim().parse::<u32>() {
            Ok(n) if n >= 3 && n <= 4294967295 => Ok(n),
            Ok(_) => Err(ChoiceError::OutOfRange),
            Err(_) => Err(ChoiceError::NotANumber),
        };
        assert_eq!(check_choice(line, 3, u32::MAX), expected, "line {:?}", line);
    }
}

#[test]
fn bad_choice_message_names_the_bounds() {
    assert_eq!(bad_choice_message(1, 2), "bad choice, choose between 1 and 2!!");
    assert_eq!(bad_choice_message(0, 4294967295), "bad choice, choose between 0 and 4294967295!!");
}

#[test]
fn choose_among_reads_a_trimmed_number() {
    assert_eq!(choose_among(&vec!['4', '2'], 1, 100), Ok(42));
    assert_eq!(choose_among(&vec!['+', '7'], 1, 100), Ok(7));
    assert_eq!(choose_among(&vec!['+'], 1, 100), Err(ChoiceError::NotANumber));
    assert_eq!(choose_among(&vec![], 1, 100), Err(ChoiceError::NotANumber));
    assert_eq!(choose_among(&vec!['1', '0', '1'], 1, 100), Err(ChoiceError::OutOfRange));
    assert_eq!(choose_among(&vec![' ', '1'], 1, 100), Err(ChoiceError::NotANumber));
}

#[test]
fn choices_read_from_the_three_lines() {
    assert_eq!(check_choice("-1\n", 1, 2), Err(ChoiceError::NotANumber));
    assert_eq!(check_choice("3\n", 1, 2), Err(ChoiceError::OutOfRange));
    assert_eq!(check_choice(" 2 \n", 1, 2), Ok(2));
    assert_eq!(check_choice("\u{2003}1\u{85}", 1, 2), Ok(1));
}
