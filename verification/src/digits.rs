//! Binary digits: what a string of them is, the marked forms that the machines
//! write over them, and the validation of arguments through the `regex` crate.

use vstd::prelude::*;

verus! {

#[verifier::external_type_specification]
#[verifier::external_body]
pub struct ExRegexError(regex::Error);

/// Whether `regex::Regex::new` accepts `pattern`; it depends on the pattern alone
/// (the default size limit is a constant of the crate).
pub uninterp spec fn regex_compiles(pattern: Seq<char>) -> bool;

/// What `regex::Regex::is_match` answers for `haystack` once `pattern` is compiled.
pub uninterp spec fn regex_finds(pattern: Seq<char>, haystack: Seq<char>) -> bool;

/// The pattern `^[0-1]*$`: anchored at both ends of the haystack, any number of
/// characters of the class `0` to `1`.
pub open spec fn binary_digits_pattern() -> Seq<char> {
    seq!['^', '[', '0', '-', '1', ']', '*', '$']
}

pub open spec fn is_binary_digit(c: char) -> bool {
    c == '0' || c == '1'
}

/// Every character of `s` is a binary digit (the empty string included).
pub open spec fn all_binary(s: Seq<char>) -> bool {
    forall|i: int| 0 <= i < s.len() ==> is_binary_digit(#[trigger] s[i])
}

/// The marked form of a binary digit.
pub open spec fn mark(c: char) -> char {
    if c == '0' {
        'F'
    } else if c == '1' {
        'T'
    } else {
        c
    }
}

/// The unmarked form of a digit.
pub open spec fn unmark(c: char) -> char {
    if c == 'F' {
        '0'
    } else if c == 'T' {
        '1'
    } else {
        c
    }
}

/// Compiles `pattern` with `regex::Regex::new` and asks `regex::Regex::is_match`
/// about `haystack`.
///
/// Trusted: the result is `Ok` exactly when the pattern compiles, and its value is
/// the named answer of `is_match`. For the pattern `^[0-1]*$` the crate's
/// documentation fixes that answer: `^` and `$` match only at the start and the
/// end of the haystack (multi-line mode is off by default) and `[0-1]*` matches
/// any run of the characters `0` and `1`, so the haystack matches exactly when
/// all its characters are binary digits; the pattern is valid and small.
#[verifier::external_body]
pub(crate) fn regex_is_match(pattern: &str, haystack: &str) -> (r: Result<bool, regex::Error>)
    ensures
        r is Ok <==> regex_compiles(pattern@),
        r matches Ok(found) ==> found == regex_finds(pattern@, haystack@),
        pattern@ == binary_digits_pattern() ==> r is Ok,
        pattern@ == binary_digits_pattern() ==> (r matches Ok(found) ==> found == all_binary(haystack@)),
{
    let re = regex::Regex::new(pattern)?;
    Ok(re.is_match(haystack))
}

/// Asks whether `s` consists of binary digits only, through the regex `^[0-1]*$`.
pub fn matches_binary_digits(s: &str) -> (r: bool)
    ensures
        r == all_binary(s@),
{
    let pattern = "^[0-1]*$";
    proof {
        reveal_strlit("^[0-1]*$");
        assert(pattern@ =~= binary_digits_pattern());
    }
    match regex_is_match(pattern, s) {
        Ok(found) => found,
        Err(_) => false,
    }
}

} // verus!
