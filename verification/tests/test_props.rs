use mastermind_cli::code::ParseError;
use mastermind_cli::codemaker::feedback;
use mastermind_cli::codemaker::secret;
use mastermind_cli::codemaker::show;

#[test]
fn feedback_is_symmetric_on_samples() {
    let samples = [
        ("1112", "2111"),
        ("1234", "4321"),
        ("5256", "2244"),
        ("6666", "6166"),
        ("1211", "1122"),
    ];
    for (a, b) in samples {
        assert_eq!(
            feedback(a.to_string(), b.to_string()),
            feedback(b.to_string(), a.to_string())
        );
    }
}

#[test]
fn feedback_on_equal_codes_is_all_correct() {
    for code in ["6543", "1111", "2626"] {
        assert_eq!(
            Ok((4, 0)),
            feedback(code.to_string(), code.to_string())
        );
    }
}

#[test]
fn feedback_counts_stay_within_code_length() {
    for _ in 0..50 {
        let a = secret();
        let b = secret();
        let (correct, present) = feedback(a, b).expect("two secrets must score");
        assert!(correct + present <= 4);
    }
}

#[test]
fn duplicate_digits_are_not_over_counted() {
    // Guess and secret agree at the two middle positions; the remaining
    // '1' of the guess matches the leftover '1' of the secret, and the
    // leftover '2' matches the secret's first digit: two correct, two
    // present, and no digit credited twice.
    assert_eq!(Ok((2, 2)), feedback("1112".to_string(), "2111".to_string()));
    // Three '1's in the guess meet a single '1' in the secret: credited
    // only once as present.
    assert_eq!(Ok((0, 1)), feedback("1112".to_string(), "3331".to_string()));
}

#[test]
fn secret_is_a_valid_code() {
    for _ in 0..50 {
        let s = secret();
        assert_eq!(4, s.chars().count());
        assert!(s.chars().all(|c| ('1'..='6').contains(&c)));
    }
}

#[test]
fn show_renders_dots_and_messages() {
    assert_eq!("", show(Ok((0, 0))));
    assert_eq!("●●●●", show(Ok((4, 0))));
    assert_eq!("●●○", show(Ok((2, 1))));
    assert_eq!("○○○", show(Ok((0, 3))));
    assert_eq!("please enter 4 digits", show(Err(ParseError::StringTooShort)));
    assert_eq!("please enter 4 digits", show(Err(ParseError::StringTooLong)));
    assert_eq!(
        "each digit should be between 1 and 6, e.g. 1234",
        show(Err(ParseError::InvalidDigits))
    );
}
