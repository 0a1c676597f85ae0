use std::num::ParseIntError;

use vstd::prelude::*;

verus! {

#[verifier::external_type_specification]
#[verifier::external_body]
pub struct ExParseIntError(ParseIntError);

/// Port the server listens on when none is configured.
pub const DEFAULT_PORT: u16 = 9999;

/// Why the server configuration is unusable.
#[derive(Debug)]
pub enum ConfigError {
    /// The configured port is not a number in `0..=65535`.
    InvalidPort(ParseIntError),
}

/// Characters with the Unicode `White_Space` property, which
/// `char::is_whitespace` recognises.
pub open spec fn spec_is_whitespace(c: char) -> bool {
    ||| '\u{9}' <= c <= '\u{d}'
    ||| c == ' '
    ||| c == '\u{85}'
    ||| c == '\u{a0}'
    ||| c == '\u{1680}'
    ||| '\u{2000}' <= c <= '\u{200a}'
    ||| c == '\u{2028}'
    ||| c == '\u{2029}'
    ||| c == '\u{202f}'
    ||| c == '\u{205f}'
    ||| c == '\u{3000}'
}

/// `trimmed` is `text` without its leading and trailing whitespace.
pub open spec fn spec_is_trim_of(text: Seq<char>, trimmed: Seq<char>) -> bool {
    exists|i: int, j: int|
        0 <= i <= j <= text.len() && trimmed == text.subrange(i, j) && (forall|k: int|
            0 <= k < i ==> spec_is_whitespace(#[trigger] text[k])) && (forall|k: int|
            j <= k < text.len() ==> spec_is_whitespace(#[trigger] text[k])) && (i < j ==> (
        !spec_is_whitespace(text[i]) && !spec_is_whitespace(text[j - 1])))
}

/// Every character of `text` is whitespace.
pub open spec fn spec_is_blank(text: Seq<char>) -> bool {
    forall|k: int| 0 <= k < text.len() ==> spec_is_whitespace(#[trigger] text[k])
}

/// The value of a sequence of decimal digits.
pub open spec fn spec_decimal_value(digits: Seq<char>) -> int
    decreases digits.len(),
{
    if digits.len() == 0 {
        0
    } else {
        10 * spec_decimal_value(digits.drop_last()) + (digits.last() as int - '0' as int)
    }
}

/// The number that `str::parse::<u16>` reads from `text`: an optional `+`
/// followed by one or more ASCII digits whose value fits in 16 bits.
pub open spec fn spec_parse_u16(text: Seq<char>) -> Option<int> {
    let digits = if text.len() > 0 && text[0] == '+' {
        text.skip(1)
    } else {
        text
    };
    if digits.len() > 0 && (forall|k: int| 0 <= k < digits.len() ==> '0' <= #[trigger] digits[k] <= '9')
        && spec_decimal_value(digits) <= u16::MAX {
        Some(spec_decimal_value(digits))
    } else {
        None
    }
}

/// Calls `str::trim`, which removes leading and trailing characters for
/// which `char::is_whitespace` holds.
#[verifier::external_body]
fn trim(text: &str) -> (trimmed: &str)
    ensures
        spec_is_trim_of(text@, trimmed@),
{
    text.trim()
}

/// Calls `str::parse::<u16>`: per its documentation, a number is an optional
/// `+` followed by ASCII digits, and values above `u16::MAX` are refused.
#[verifier::external_body]
fn parse_u16(text: &str) -> (parsed: Result<u16, ParseIntError>)
    ensures
        match parsed {
            Ok(value) => spec_parse_u16(text@) == Some(value as int),
            Err(_) => spec_parse_u16(text@) is None,
        },
{
    text.parse::<u16>()
}

/// The port that a `PORT` setting selects, when the setting is present.
pub open spec fn spec_port(setting: Option<Seq<char>>) -> Option<int> {
    match setting {
        Some(text) => if spec_is_blank(text) {
            Some(DEFAULT_PORT as int)
        } else {
            spec_parse_u16(text)
        },
        None => Some(DEFAULT_PORT as int),
    }
}

proof fn lemma_trim_empty_iff_blank(text: Seq<char>, trimmed: Seq<char>)
    requires
        spec_is_trim_of(text, trimmed),
    ensures
        trimmed.len() == 0 <==> spec_is_blank(text),
{
    let (i, j) = choose|i: int, j: int|
        0 <= i <= j <= text.len() && trimmed == text.subrange(i, j) && (forall|k: int|
            0 <= k < i ==> spec_is_whitespace(#[trigger] text[k])) && (forall|k: int|
            j <= k < text.len() ==> spec_is_whitespace(#[trigger] text[k])) && (i < j ==> (
        !spec_is_whitespace(text[i]) && !spec_is_whitespace(text[j - 1])));
    if trimmed.len() == 0 {
        assert forall|k: int| 0 <= k < text.len() implies spec_is_whitespace(#[trigger] text[k]) by {
            if k >= i {
                assert(k >= j);
            }
        }
    }
    if spec_is_blank(text) && i < j {
        assert(spec_is_whitespace(text[i]));
    }
}

/// The port to listen on, from the text of the `PORT` setting if there is
/// one: the default when the setting is absent or blank, else the setting
/// read as a number (the text itself, not its trimmed form).
pub fn port_from_setting(setting: Option<&str>) -> (port: Result<u16, ConfigError>)
    ensures
        match port {
            Ok(p) => spec_port(
                match setting {
                    Some(t) => Some(t@),
                    None => None,
                },
            ) == Some(p as int),
            Err(_) => spec_port(
                match setting {
                    Some(t) => Some(t@),
                    None => None,
                },
            ) is None,
        },
{
    match setting {
        Some(value) => {
            let trimmed = trim(value);
            proof {
                lemma_trim_empty_iff_blank(value@, trimmed@);
            }
            if trimmed.is_empty() {
                Ok(DEFAULT_PORT)
            } else {
                match parse_u16(value) {
                    Ok(port) => Ok(port),
                    Err(error) => Err(ConfigError::InvalidPort(error)),
                }
            }
        },
        None => Ok(DEFAULT_PORT),
    }
}

} // verus!
