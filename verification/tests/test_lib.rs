use mastermind_cli::code;

fn char_vec(s: &str) -> Vec<char> {
    s.chars().collect()
}

#[test]
fn code_from_correct_string() {
    assert!(code::parse("1234").is_ok());
    assert!(code::parse("6543").is_ok());
}

#[test]
fn code_from_incorrect_string() {
    assert!(code::parse("123").is_err());
    assert!(code::parse("12345").is_err());
    assert!(code::parse("1237").is_err());
    assert!(code::parse("123x").is_err());
    assert!(code::parse("0123").is_err());
}

#[test]
fn parse_code_from_string() {
    assert!(code::parse(&code::random()).is_ok());
    assert!(code::parse("02e7").is_err());
    assert!(code::parse("123").is_err());
    assert!(code::parse("12345").is_err());
    let expect = char_vec("1234");
    assert_eq!(Ok(expect), code::parse("1234"));
}

#[test]
fn parse_reports_each_error() {
    assert_eq!(Err(code::ParseError::StringTooShort), code::parse(""));
    assert_eq!(Err(code::ParseError::StringTooShort), code::parse("123"));
    assert_eq!(Err(code::ParseError::StringTooLong), code::parse("12345"));
    assert_eq!(Err(code::ParseError::InvalidDigits), code::parse("0123"));
    assert_eq!(Err(code::ParseError::InvalidDigits), code::parse("02e7"));
    // length is checked before digit validity
    assert_eq!(Err(code::ParseError::StringTooLong), code::parse("qwerty"));
    assert_eq!(Err(code::ParseError::StringTooShort), code::parse("x"));
}

#[test]
fn random_code_round_trips() {
    for _ in 0..100 {
        let drawn = code::random();
        assert_eq!(4, drawn.chars().count());
        assert!(drawn.chars().all(|c| ('1'..='6').contains(&c)));
        let parsed = code::parse(&drawn).expect("a random code must parse");
        assert_eq!(char_vec(&drawn), parsed);
    }
}
