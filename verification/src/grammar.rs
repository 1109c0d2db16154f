//! The grammar that the parser implements, as functions from a sequence of
//! characters to the value read from its start and the number of characters
//! read, or to the kind of failure.

use vstd::prelude::*;
use crate::error::{failure, ErrorKind, Failure};
use crate::value::{map_of, Json};

verus! {

/// A character with the Unicode property `White_Space`.
pub open spec fn is_space(c: char) -> bool {
    let n = c as u32;
    (0x09 <= n <= 0x0D) || n == 0x20 || n == 0x85 || n == 0xA0 || n == 0x1680 || (0x2000 <= n
        <= 0x200A) || n == 0x2028 || n == 0x2029 || n == 0x202F || n == 0x205F || n == 0x3000
}

/// One of the ten decimal digits.
pub open spec fn is_digit(c: char) -> bool {
    '0' <= c <= '9'
}

/// How many whitespace characters `s` starts with.
pub open spec fn leading_spaces(s: Seq<char>) -> nat
    decreases s.len(),
{
    if s.len() > 0 && is_space(s[0]) {
        1 + leading_spaces(s.skip(1))
    } else {
        0
    }
}

/// How many digits `s` starts with.
pub open spec fn leading_digits(s: Seq<char>) -> nat
    decreases s.len(),
{
    if s.len() > 0 && is_digit(s[0]) {
        1 + leading_digits(s.skip(1))
    } else {
        0
    }
}

/// The number that a sequence of digits denotes.
pub open spec fn digits_value(s: Seq<char>) -> int
    decreases s.len(),
{
    if s.len() == 0 {
        0
    } else {
        digits_value(s.drop_last()) * 10 + (s.last() as int - '0' as int)
    }
}

/// The number that a sequence of digits accumulates to in 64 bits: each
/// step multiplies by ten and adds the digit, both wrapping.
pub open spec fn digits_wrapped(s: Seq<char>) -> i64
    decreases s.len(),
{
    if s.len() == 0 {
        0
    } else {
        vstd::wrapping::i64_specs::wrapping_add(
            vstd::wrapping::i64_specs::wrapping_mul(digits_wrapped(s.drop_last()), 10),
            (s.last() as int - '0' as int) as i64,
        )
    }
}

/// The number with its sign applied, wrapping.
pub open spec fn signed(negative: bool, magnitude: i64) -> i64 {
    if negative {
        vstd::wrapping::i64_specs::wrapping_sub(0, magnitude)
    } else {
        magnitude
    }
}

/// The character that stands behind a backslash, decoded.
pub open spec fn unescape(c: char) -> char {
    if c == 'n' {
        '\n'
    } else if c == 't' {
        '\t'
    } else if c == 'r' {
        '\r'
    } else {
        c
    }
}

/// `s` starts with the characters of `word`.
pub open spec fn spells(s: Seq<char>, word: Seq<char>) -> bool {
    s.len() >= word.len() && forall|i: int| 0 <= i < word.len() ==> s[i] == word[i]
}

/// The same result, reached after `used` more characters.
pub open spec fn shifted<T>(r: Result<(T, nat), Failure>, used: nat) -> Result<
    (T, nat),
    Failure,
> {
    match r {
        Ok((v, n)) => Ok((v, n + used)),
        Err(e) => Err(e),
    }
}

/// The items of `rest` behind those of `prefix`, which took `used`
/// characters.
pub open spec fn after<T>(
    prefix: Seq<T>,
    used: nat,
    rest: Result<(Seq<T>, nat), Failure>,
) -> Result<(Seq<T>, nat), Failure> {
    match rest {
        Ok((items, n)) => Ok((prefix + items, used + n)),
        Err(e) => Err(e),
    }
}

/// A literal: the whole word must be there.
pub open spec fn literal_value(s: Seq<char>, word: Seq<char>, v: Json) -> Result<
    (Json, nat),
    Failure,
> {
    if spells(s, word) {
        Ok((v, word.len()))
    } else {
        Err(failure(ErrorKind::UnexpectedCharacter, "Invalid literal"))
    }
}

/// The text of a string from behind its opening quote: the decoded
/// characters, and how many characters were read, the closing quote
/// included.
pub open spec fn string_body(s: Seq<char>) -> Result<(Seq<char>, nat), Failure>
    decreases s.len(),
{
    if s.len() == 0 {
        Err(failure(ErrorKind::UnterminatedString, "Unclosed string"))
    } else if s[0] == '"' {
        Ok((Seq::empty(), 1))
    } else if s[0] == '\\' {
        if s.len() == 1 {
            Err(failure(ErrorKind::UnterminatedString, "Dangling escape"))
        } else {
            after(seq![unescape(s[1])], 2, string_body(s.skip(2)))
        }
    } else {
        after(seq![s[0]], 1, string_body(s.skip(1)))
    }
}

/// A string; `s` starts with its opening quote.
pub open spec fn string_value(s: Seq<char>) -> Result<(Json, nat), Failure> {
    match string_body(s.skip(1)) {
        Ok((text, n)) => Ok((Json::String(text), n + 1)),
        Err(e) => Err(e),
    }
}

/// A numeral: an optional minus sign, digits, and at most one decimal
/// point followed by digits. It ends before the first character that is
/// none of these; a second decimal point right behind it is refused.
pub open spec fn number_value(s: Seq<char>) -> Result<(Json, nat), Failure>
    recommends
        s.len() > 0,
{
    let negative = s[0] == '-';
    let start: nat = if negative { 1 } else { 0 };
    let w = leading_digits(s.skip(start as int));
    let dot = start + w;
    let whole = digits_wrapped(s.subrange(start as int, dot as int));
    if dot < s.len() && s[dot as int] == '.' {
        let f = leading_digits(s.skip((dot + 1) as int));
        let end = dot + 1 + f;
        if end < s.len() && s[end as int] == '.' {
            Err(failure(ErrorKind::MalformedNumber, "Extra decimal point in number"))
        } else {
            Ok(
                (
                    Json::Decimal {
                        negative,
                        whole: whole as int,
                        fraction: digits_wrapped(s.subrange((dot + 1) as int, end as int)) as int,
                        scale: f,
                    },
                    end,
                ),
            )
        }
    } else {
        Ok((Json::Integer(signed(negative, whole) as int), dot))
    }
}

/// A value at the start of `s`, which does not start with whitespace: the
/// first character decides which.
pub open spec fn parse_value(s: Seq<char>) -> Result<(Json, nat), Failure>
    decreases s.len(), 1nat,
{
    if s.len() == 0 {
        Err(failure(ErrorKind::UnexpectedEndOfInput, "Empty input"))
    } else if s[0] == 't' {
        literal_value(s, seq!['t', 'r', 'u', 'e'], Json::Boolean(true))
    } else if s[0] == 'f' {
        literal_value(s, seq!['f', 'a', 'l', 's', 'e'], Json::Boolean(false))
    } else if s[0] == 'n' {
        literal_value(s, seq!['n', 'u', 'l', 'l'], Json::Null)
    } else if s[0] == '"' {
        string_value(s)
    } else if s[0] == '[' {
        list_value(s)
    } else if s[0] == '{' {
        object_value(s)
    } else if is_digit(s[0]) || s[0] == '.' {
        number_value(s)
    } else {
        Err(failure(ErrorKind::UnexpectedCharacter, "Invalid input"))
    }
}

/// A value behind any whitespace; the whitespace counts as read.
pub open spec fn parse_trimmed(s: Seq<char>) -> Result<(Json, nat), Failure>
    decreases s.len(), 2nat,
{
    if s.len() > 0 && is_space(s[0]) {
        shifted(parse_trimmed(s.skip(1)), 1)
    } else {
        parse_value(s)
    }
}

/// The items of a list from behind its opening bracket or a comma, up to
/// and with the closing bracket.
pub open spec fn list_items(s: Seq<char>) -> Result<(Seq<Json>, nat), Failure>
    decreases s.len(), 3nat,
{
    if s.len() == 0 {
        Err(failure(ErrorKind::UnexpectedEndOfInput, "Unclosed list"))
    } else {
        match parse_trimmed(s) {
            Err(e) => Err(e),
            Ok((v, n)) => {
                let d = n + leading_spaces(s.skip(n as int));
                if d >= s.len() {
                    Err(failure(ErrorKind::UnexpectedEndOfInput, "Unclosed list"))
                } else if s[d as int] == ',' {
                    after(seq![v], d + 1, list_items(s.skip((d + 1) as int)))
                } else if s[d as int] == ']' {
                    Ok((seq![v], d + 1))
                } else {
                    Err(failure(ErrorKind::UnexpectedCharacter, "Improperly delimited list"))
                }
            },
        }
    }
}

/// A list; `s` starts with its opening bracket. A closing bracket right
/// behind the opening one ends the list at once, and only the opening
/// bracket counts as read.
pub open spec fn list_value(s: Seq<char>) -> Result<(Json, nat), Failure>
    decreases s.len(), 0nat,
{
    if s.len() < 2 {
        Err(failure(ErrorKind::UnexpectedEndOfInput, "Unclosed list"))
    } else if s[1] == ']' {
        Ok((Json::List(Seq::empty()), 1))
    } else {
        match list_items(s.skip(1)) {
            Ok((items, n)) => Ok((Json::List(items), n + 1)),
            Err(e) => Err(e),
        }
    }
}

/// One pair of an object: a string, a colon, a value, with whitespace
/// before each of them.
pub open spec fn object_entry(s: Seq<char>) -> Result<((Seq<char>, Json), nat), Failure>
    decreases s.len(), 3nat,
{
    match parse_trimmed(s) {
        Err(e) => Err(e),
        Ok((k, n)) => match k {
            Json::String(key) => {
                let d = n + leading_spaces(s.skip(n as int));
                if d >= s.len() {
                    Err(failure(ErrorKind::UnexpectedEndOfInput, "Improperly delimited map entry"))
                } else if s[d as int] != ':' {
                    Err(failure(ErrorKind::UnexpectedCharacter, "Improperly delimited map entry"))
                } else {
                    match parse_trimmed(s.skip((d + 1) as int)) {
                        Ok((v, m)) => Ok(((key, v), d + 1 + m)),
                        Err(e) => Err(e),
                    }
                }
            },
            _ => Err(failure(ErrorKind::NonStringKey, "Map key is not string")),
        },
    }
}

/// The pairs of an object from behind its opening brace or a comma, up to
/// and with the closing brace.
pub open spec fn object_entries(s: Seq<char>) -> Result<(Seq<(Seq<char>, Json)>, nat), Failure>
    decreases s.len(), 4nat,
{
    if s.len() == 0 {
        Err(failure(ErrorKind::UnexpectedEndOfInput, "Unclosed map"))
    } else {
        match object_entry(s) {
            Err(e) => Err(e),
            Ok((entry, n)) => {
                let d = n + leading_spaces(s.skip(n as int));
                if d >= s.len() {
                    Err(failure(ErrorKind::UnexpectedEndOfInput, "Unclosed map"))
                } else if s[d as int] == ',' {
                    after(seq![entry], d + 1, object_entries(s.skip((d + 1) as int)))
                } else if s[d as int] == '}' {
                    Ok((seq![entry], d + 1))
                } else {
                    Err(failure(ErrorKind::UnexpectedCharacter, "Improperly delimited map"))
                }
            },
        }
    }
}

/// An object; `s` starts with its opening brace. A closing brace right
/// behind the opening one ends the object at once, and only the opening
/// brace counts as read. Of two pairs with one key the later stays.
pub open spec fn object_value(s: Seq<char>) -> Result<(Json, nat), Failure>
    decreases s.len(), 0nat,
{
    if s.len() < 2 {
        Err(failure(ErrorKind::UnexpectedEndOfInput, "Unclosed map"))
    } else if s[1] == '}' {
        Ok((Json::Object(Map::empty()), 1))
    } else {
        match object_entries(s.skip(1)) {
            Ok((entries, n)) => Ok((Json::Object(map_of(entries)), n + 1)),
            Err(e) => Err(e),
        }
    }
}

/// What a whole text parses to: the value at its start, behind any
/// whitespace. What follows the value is not looked at.
pub open spec fn parse_text(s: Seq<char>) -> Result<Json, Failure> {
    match parse_trimmed(s) {
        Ok((v, _)) => Ok(v),
        Err(e) => Err(e),
    }
}

} // verus!
