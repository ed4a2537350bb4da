//! Codes: validated four-digit sequences over the alphabet `'1'..='6'`,
//! parsed from untrusted text or drawn at random.

use vstd::prelude::*;
use vstd::string::StrSliceExecFns;
use vstd::string::StringExecFns;

verus! {

/// Why a string failed to parse as a code. Length is checked before digit
/// validity, so a string of the wrong length reports its length even when
/// it also holds foreign characters.
#[derive(PartialEq, Eq, Structural, Debug, Clone, Copy)]
pub enum ParseError {
    StringTooShort,
    StringTooLong,
    InvalidDigits,
}

/// A character of the code alphabet: one of the six digits `'1'..='6'`.
pub open spec fn is_code_digit(c: char) -> bool {
    c == '1' || c == '2' || c == '3' || c == '4' || c == '5' || c == '6'
}

/// Every character of `s` belongs to the code alphabet.
pub open spec fn all_code_digits(s: Seq<char>) -> bool {
    forall|i: int| 0 <= i < s.len() ==> is_code_digit(s[i])
}

/// A well-formed code: exactly four characters, all in the alphabet.
pub open spec fn valid_code(s: Seq<char>) -> bool {
    s.len() == 4 && all_code_digits(s)
}

/// What `parse` returns for a given character sequence.
pub open spec fn spec_parse(s: Seq<char>) -> Result<Seq<char>, ParseError> {
    if s.len() < 4 {
        Err(ParseError::StringTooShort)
    } else if s.len() > 4 {
        Err(ParseError::StringTooLong)
    } else if !all_code_digits(s) {
        Err(ParseError::InvalidDigits)
    } else {
        Ok(s)
    }
}

/// Parse a string to a code. The string has to be a 4 digit number,
/// and each digit an element of [1-6].
pub fn parse(string: &str) -> (r: Result<Vec<char>, ParseError>)
    ensures
        match r {
            Ok(code) => valid_code(string@) && code@ == string@,
            Err(e) => !valid_code(string@) && spec_parse(string@) == Err::<
                Seq<char>,
                ParseError,
            >(e),
        },
{
    let n = string.unicode_len();
    if n < 4 {
        return Err(ParseError::StringTooShort);
    }
    if n > 4 {
        return Err(ParseError::StringTooLong);
    }
    let mut code: Vec<char> = Vec::new();
    let mut i: usize = 0;
    while i < 4
        invariant
            string@.len() == 4,
            i <= 4,
            code@ == string@.take(i as int),
            all_code_digits(string@.take(i as int)),
        decreases 4 - i,
    {
        let c = string.get_char(i);
        if !(c == '1' || c == '2' || c == '3' || c == '4' || c == '5' || c == '6') {
            assert(!is_code_digit(string@[i as int]));
            return Err(ParseError::InvalidDigits);
        }
        code.push(c);
        proof {
            assert(string@.take(i + 1) =~= string@.take(i as int).push(string@[i as int]));
        }
        i += 1;
    }
    proof {
        assert(string@.take(4) =~= string@);
    }
    Ok(code)
}

/// Relies on rand's `Uniform` distribution over `0..6`: `sample` always
/// returns an index inside the range it was built from.
#[verifier::external_body]
fn sample_digit_index() -> (r: usize)
    ensures
        r < 6,
{
    let mut rng = rand::thread_rng();
    let dist = rand::distributions::Uniform::from(0usize..6usize);
    rand::distributions::Distribution::sample(&dist, &mut rng)
}

/// The single-character string for a digit index: index 0 maps to `"1"`,
/// index 5 to `"6"`.
fn digit_str(idx: usize) -> (r: &'static str)
    requires
        idx < 6,
    ensures
        r@.len() == 1,
        is_code_digit(r@[0]),
        r@[0] == seq!['1', '2', '3', '4', '5', '6'][idx as int],
{
    proof {
        reveal_strlit("1");
        reveal_strlit("2");
        reveal_strlit("3");
        reveal_strlit("4");
        reveal_strlit("5");
        reveal_strlit("6");
    }
    if idx == 0 {
        "1"
    } else if idx == 1 {
        "2"
    } else if idx == 2 {
        "3"
    } else if idx == 3 {
        "4"
    } else if idx == 4 {
        "5"
    } else {
        "6"
    }
}

/// Generate a random code from a uniform distribution. The generated
/// code is a 4 digit number, and each digit is an element of [1-6].
pub fn random() -> (r: String)
    ensures
        valid_code(r@),
{
    let mut code = String::new();
    let mut i: usize = 0;
    while i < 4
        invariant
            i <= 4,
            code@.len() == i,
            all_code_digits(code@),
        decreases 4 - i,
    {
        let idx = sample_digit_index();
        let d = digit_str(idx);
        let ghost before = code@;
        code.append(d);
        proof {
            assert forall|j: int| 0 <= j < code@.len() implies is_code_digit(code@[j]) by {
                if j < before.len() {
                    assert(code@[j] == before[j]);
                } else {
                    assert(code@[j] == d@[0]);
                }
            }
        }
        i += 1;
    }
    code
}

/// Law: any string that `random` can return parses successfully, back to
/// its own digit sequence.
pub proof fn lemma_random_code_parses(s: Seq<char>)
    requires
        valid_code(s),
    ensures
        spec_parse(s) == Ok::<Seq<char>, ParseError>(s),
{
}

} // verus!

