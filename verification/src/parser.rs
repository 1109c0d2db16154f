//! The parser: each function reads one production from the start of a slice
//! of characters and returns the value with the number of characters read.

use vstd::prelude::*;
use vstd::slice::slice_subrange;
use crate::error::{ErrorKind, Failure, ParseJSONError};
use crate::grammar::{
    after, digits_wrapped, is_digit, is_space, leading_digits, leading_spaces, list_items,
    list_value, number_value, object_entries, object_entry, object_value, parse_trimmed,
    parse_text, parse_value, signed, string_body, string_value, unescape,
};
use crate::laws::law_trimmed_is_value_behind_whitespace;
use crate::text::chars_of;
use crate::value::{
    distinct_keys, entries_view, items_view, lemma_map_of_update, map_of, JSONValue, Json,
};

verus! {

/// The result `r` of a parser is what the grammar gives, `expected`, and on
/// success no more was read than the `len` characters that were there.
pub open spec fn agrees(
    r: Result<(JSONValue, usize), ParseJSONError>,
    expected: Result<(Json, nat), Failure>,
    len: nat,
) -> bool {
    match r {
        Ok((v, n)) => expected == Ok::<(Json, nat), Failure>((v@, n as nat)) && n <= len
            && v.wf(),
        Err(e) => expected == Err::<(Json, nat), Failure>(e@),
    }
}

/// Whether `c` has the Unicode property `White_Space`.
pub fn is_whitespace(c: char) -> (b: bool)
    ensures
        b == is_space(c),
{
    let n: u32 = c as u32;
    (0x09 <= n && n <= 0x0D) || n == 0x20 || n == 0x85 || n == 0xA0 || n == 0x1680 || (0x2000
        <= n && n <= 0x200A) || n == 0x2028 || n == 0x2029 || n == 0x202F || n == 0x205F || n
        == 0x3000
}

/// Skips leading whitespace: returns what is left and how many characters
/// were skipped.
pub fn trim_start(input: &[char]) -> (r: (&[char], usize))
    ensures
        r.1 == leading_spaces(input@),
        r.1 <= input.len(),
        r.0@ == input@.skip(r.1 as int),
{
    let mut trimmed: usize = 0;
    proof {
        assert(input@.skip(0) =~= input@);
    }
    while trimmed < input.len() && is_whitespace(input[trimmed])
        invariant
            trimmed <= input.len(),
            leading_spaces(input@) == trimmed + leading_spaces(input@.skip(trimmed as int)),
        decreases input.len() - trimmed,
    {
        proof {
            assert(input@.skip(trimmed as int).skip(1) =~= input@.skip(trimmed + 1));
        }
        trimmed += 1;
    }
    (slice_subrange(input, trimmed, input.len()), trimmed)
}

/// The character that an escape stands for: `n`, `t` and `r` give newline,
/// tab and carriage return, any other character gives itself.
pub fn unescape_char(c: char) -> (d: char)
    ensures
        d == unescape(c),
{
    if c == 'n' {
        '\n'
    } else if c == 't' {
        '\t'
    } else if c == 'r' {
        '\r'
    } else {
        c
    }
}

/// One more item, read from `step` characters, joins those read before
/// it.
proof fn lemma_after_push<T>(
    prefix: Seq<T>,
    used: nat,
    item: T,
    step: nat,
    rest: Result<(Seq<T>, nat), Failure>,
)
    ensures
        after(prefix, used, after(seq![item], step, rest)) == after(
            prefix.push(item),
            used + step,
            rest,
        ),
{
    match rest {
        Ok((items, n)) => {
            assert(prefix + (seq![item] + items) =~= prefix.push(item) + items);
        },
        Err(_) => {},
    }
}

/// Reads a string. `chars` starts with the opening quote.
///
/// A backslash and the character behind it give one character; the first
/// quote that no backslash precedes ends the string. The count takes in
/// both quotes.
pub fn parse_string(chars: &[char]) -> (r: Result<(JSONValue, usize), ParseJSONError>)
    requires
        chars.len() > 0,
        chars@[0] == '"',
    ensures
        agrees(r, string_value(chars@), chars@.len()),
{
    let body = slice_subrange(chars, 1, chars.len());
    let mut out = String::new();
    let mut i: usize = 0;
    proof {
        assert(body@.skip(0) =~= body@);
        assert(Seq::<char>::empty() + string_body(body@)->Ok_0.0 =~= string_body(body@)->Ok_0.0);
    }
    while i < body.len()
        invariant
            i <= body.len(),
            body@ == chars@.skip(1),
            chars.len() > 0,
            string_body(body@) == after(out@, i as nat, string_body(body@.skip(i as int))),
        decreases body.len() - i,
    {
        let c = body[i];
        let ghost cur = body@.skip(i as int);
        if c == '\\' {
            if i == body.len() - 1 {
                return Err(
                    ParseJSONError::new(ErrorKind::UnterminatedString, "Dangling escape"),
                );
            }
            let next = body[i + 1];
            proof {
                assert(cur.skip(2) =~= body@.skip(i + 2));
                lemma_after_push(out@, i as nat, unescape(next), 2, string_body(cur.skip(2)));
            }
            out.push(unescape_char(next));
            i += 2;
        } else if c == '"' {
            proof {
                assert(out@ + Seq::<char>::empty() =~= out@);
            }
            return Ok((JSONValue::String(out), i + 2));
        } else {
            proof {
                assert(cur.skip(1) =~= body@.skip(i + 1));
                lemma_after_push(out@, i as nat, c, 1, string_body(cur.skip(1)));
            }
            out.push(c);
            i += 1;
        }
    }
    Err(ParseJSONError::new(ErrorKind::UnterminatedString, "Unclosed string"))
}

/// Whether `c` is a decimal digit.
pub fn is_digit_char(c: char) -> (b: bool)
    ensures
        b == is_digit(c),
{
    '0' <= c && c <= '9'
}

/// Reads the digits of `chars` from index `from` on: the number they
/// accumulate to, wrapping in 64 bits, and how many there were.
pub fn scan_digits(chars: &[char], from: usize) -> (r: (i64, usize))
    requires
        from <= chars.len(),
    ensures
        r.1 == leading_digits(chars@.skip(from as int)),
        from + r.1 <= chars.len(),
        r.0 == digits_wrapped(chars@.subrange(from as int, from + r.1)),
{
    let mut acc: i64 = 0;
    let mut i: usize = from;
    proof {
        assert(chars@.subrange(from as int, from as int).len() == 0);
    }
    while i < chars.len() && is_digit_char(chars[i])
        invariant
            from <= i <= chars.len(),
            leading_digits(chars@.skip(from as int)) == (i - from) + leading_digits(
                chars@.skip(i as int),
            ),
            acc == digits_wrapped(chars@.subrange(from as int, i as int)),
        decreases chars.len() - i,
    {
        let digit: i64 = (chars[i] as u32 - '0' as u32) as i64;
        proof {
            assert(chars@.skip(i as int).skip(1) =~= chars@.skip(i + 1));
            let run = chars@.subrange(from as int, i + 1);
            assert(run.drop_last() =~= chars@.subrange(from as int, i as int));
            assert(run.last() == chars@[i as int]);
        }
        acc = acc.wrapping_mul(10).wrapping_add(digit);
        i += 1;
    }
    (acc, i - from)
}

/// The value of a numeral from its parts: the digits before the decimal
/// point, the digits behind it with their count where there was a point,
/// and the sign.
pub fn assemble_num(num: i64, decimal: Option<(i64, usize)>, negative: bool) -> (v: JSONValue)
    ensures
        v@ == (match decimal {
            None => Json::Integer(signed(negative, num) as int),
            Some((fraction, scale)) => Json::Decimal {
                negative,
                whole: num as int,
                fraction: fraction as int,
                scale: scale as nat,
            },
        }),
{
    match decimal {
        None => {
            if negative {
                JSONValue::Integer(0i64.wrapping_sub(num))
            } else {
                JSONValue::Integer(num)
            }
        },
        Some((fraction, scale)) => JSONValue::Decimal { negative, whole: num, fraction, scale },
    }
}

/// Reads a numeral: an optional minus sign, digits, and at most one decimal
/// point with the digits behind it. A second decimal point is an error.
pub fn parse_num(chars: &[char]) -> (r: Result<(JSONValue, usize), ParseJSONError>)
    requires
        chars.len() > 0,
    ensures
        agrees(r, number_value(chars@), chars@.len()),
{
    let negative = chars[0] == '-';
    let start: usize = if negative { 1 } else { 0 };
    let (whole, w) = scan_digits(chars, start);
    let dot: usize = start + w;
    if dot < chars.len() && chars[dot] == '.' {
        let (fraction, f) = scan_digits(chars, dot + 1);
        let end: usize = dot + 1 + f;
        if end < chars.len() && chars[end] == '.' {
            return Err(
                ParseJSONError::new(ErrorKind::MalformedNumber, "Extra decimal point in number"),
            );
        }
        Ok((assemble_num(whole, Some((fraction, f)), negative), end))
    } else {
        Ok((assemble_num(whole, None, negative), dot))
    }
}

/// Reads the value at the start of `input`, which does not start with
/// whitespace. The first character decides what is read: `t`, `f` and `n`
/// a literal, which must be spelt out in full; a quote a string; a bracket
/// a list; a brace an object; a digit or a decimal point a numeral.
pub fn parse_json(input: &[char]) -> (r: Result<(JSONValue, usize), ParseJSONError>)
    ensures
        agrees(r, parse_value(input@), input@.len()),
    decreases input@.len(), 1nat,
{
    if input.len() == 0 {
        return Err(ParseJSONError::new(ErrorKind::UnexpectedEndOfInput, "Empty input"));
    }
    let c = input[0];
    if c == 't' {
        if input.len() >= 4 && input[1] == 'r' && input[2] == 'u' && input[3] == 'e' {
            Ok((JSONValue::Boolean(true), 4))
        } else {
            Err(ParseJSONError::new(ErrorKind::UnexpectedCharacter, "Invalid literal"))
        }
    } else if c == 'f' {
        if input.len() >= 5 && input[1] == 'a' && input[2] == 'l' && input[3] == 's' && input[4]
            == 'e' {
            Ok((JSONValue::Boolean(false), 5))
        } else {
            Err(ParseJSONError::new(ErrorKind::UnexpectedCharacter, "Invalid literal"))
        }
    } else if c == 'n' {
        if input.len() >= 4 && input[1] == 'u' && input[2] == 'l' && input[3] == 'l' {
            Ok((JSONValue::Null, 4))
        } else {
            Err(ParseJSONError::new(ErrorKind::UnexpectedCharacter, "Invalid literal"))
        }
    } else if c == '"' {
        parse_string(input)
    } else if c == '[' {
        parse_list(input)
    } else if c == '{' {
        parse_map(input)
    } else if is_digit_char(c) || c == '.' {
        parse_num(input)
    } else {
        Err(ParseJSONError::new(ErrorKind::UnexpectedCharacter, "Invalid input"))
    }
}

/// Reads the value behind any leading whitespace. The count takes in the
/// whitespace.
pub fn parse_json_trim(input: &[char]) -> (r: Result<(JSONValue, usize), ParseJSONError>)
    ensures
        agrees(r, parse_trimmed(input@), input@.len()),
    decreases input@.len(), 2nat,
{
    let (rest, trimmed) = trim_start(input);
    proof {
        law_trimmed_is_value_behind_whitespace(input@);
    }
    match parse_json(rest) {
        Ok((v, n)) => Ok((v, n + trimmed)),
        Err(e) => Err(e),
    }
}

/// Reads a list. `chars` starts with the opening bracket.
///
/// A closing bracket right behind the opening one gives the empty list, and
/// then only the opening bracket is counted. Otherwise values follow,
/// parted by commas, up to the closing bracket, with whitespace allowed
/// before each value and each delimiter; the count takes in the closing
/// bracket.
pub fn parse_list(chars: &[char]) -> (r: Result<(JSONValue, usize), ParseJSONError>)
    requires
        chars.len() > 0,
        chars@[0] == '[',
    ensures
        agrees(r, list_value(chars@), chars@.len()),
    decreases chars@.len(), 0nat,
{
    let mut list: Vec<JSONValue> = Vec::new();
    if chars.len() < 2 {
        return Err(ParseJSONError::new(ErrorKind::UnexpectedEndOfInput, "Unclosed list"));
    }
    if chars[1] == ']' {
        proof {
            JSONValue::lemma_list_view(list);
            assert(items_view(list@) =~= Seq::<Json>::empty());
        }
        return Ok((JSONValue::List(list), 1));
    }
    let mut rest = slice_subrange(chars, 1, chars.len());
    let mut length: usize = 1;
    proof {
        assert(items_view(list@) + list_items(rest@)->Ok_0.0 =~= list_items(rest@)->Ok_0.0);
    }
    loop
        invariant
            chars.len() >= 2,
            chars@[1] != ']',
            1 <= length <= chars.len(),
            rest@ == chars@.skip(length as int),
            list_items(chars@.skip(1)) == after(
                items_view(list@),
                (length - 1) as nat,
                list_items(rest@),
            ),
            forall|i: int| 0 <= i < list.len() ==> (#[trigger] list[i]).wf(),
        decreases rest@.len(),
    {
        if rest.len() == 0 {
            return Err(ParseJSONError::new(ErrorKind::UnexpectedEndOfInput, "Unclosed list"));
        }
        let (item, n) = match parse_json_trim(rest) {
            Ok(next) => next,
            Err(e) => { return Err(e); },
        };
        let (tail, trimmed) = trim_start(slice_subrange(rest, n, rest.len()));
        let ghost d = n + trimmed;
        let ghost before = items_view(list@);
        let ghost model = item@;
        proof {
            assert(tail@ =~= rest@.skip(d));
            assert(before.push(model) =~= items_view(list@.push(item)));
        }
        if tail.len() == 0 {
            return Err(ParseJSONError::new(ErrorKind::UnexpectedEndOfInput, "Unclosed list"));
        }
        let delimiter = tail[0];
        list.push(item);
        if delimiter == ',' {
            proof {
                lemma_after_push(
                    before,
                    (length - 1) as nat,
                    model,
                    (d + 1) as nat,
                    list_items(rest@.skip(d + 1)),
                );
                assert(tail@.skip(1) =~= rest@.skip(d + 1));
                assert(rest@.skip(d + 1) =~= chars@.skip(length + d + 1));
            }
            rest = slice_subrange(tail, 1, tail.len());
            length = length + n + trimmed + 1;
        } else if delimiter == ']' {
            proof {
                assert(before + seq![model] =~= items_view(list@));
                JSONValue::lemma_list_view(list);
            }
            return Ok((JSONValue::List(list), length + n + trimmed + 1));
        } else {
            return Err(
                ParseJSONError::new(ErrorKind::UnexpectedCharacter, "Improperly delimited list"),
            );
        }
    }
}

/// Writes a pair into the pairs of an object: over the pair that has the
/// key, where there is one, else at the end.
pub fn insert_entry(entries: &mut Vec<(String, JSONValue)>, key: String, value: JSONValue)
    requires
        distinct_keys(old(entries)@),
        forall|i: int| 0 <= i < old(entries).len() ==> (#[trigger] old(entries)[i]).1.wf(),
        value.wf(),
    ensures
        distinct_keys(final(entries)@),
        forall|i: int| 0 <= i < final(entries).len() ==> (#[trigger] final(entries)[i]).1.wf(),
        map_of(entries_view(final(entries)@)) == map_of(entries_view(old(entries)@)).insert(
            key@,
            value@,
        ),
        forall|j: int|
            0 <= j < old(entries).len() && old(entries)[j].0@ == key@ ==> final(entries)@
                == old(entries)@.update(j, (key, value)),
        (forall|j: int| 0 <= j < old(entries).len() ==> old(entries)[j].0@ != key@) ==> final(entries)@
            == old(entries)@.push((key, value)),
{
    let ghost before = entries@;
    let mut j: usize = 0;
    while j < entries.len()
        invariant
            j <= entries.len(),
            entries@ == before,
            before == old(entries)@,
            distinct_keys(before),
            forall|i: int| 0 <= i < before.len() ==> (#[trigger] before[i]).1.wf(),
            value.wf(),
            forall|i: int| 0 <= i < j ==> before[i].0@ != key@,
        decreases entries.len() - j,
    {
        if entries[j].0 == key {
            proof {
                lemma_map_of_update(entries_view(before), j as int, key@, value@);
                assert(entries_view(before.update(j as int, (key, value))) =~= entries_view(
                    before,
                ).update(j as int, (key@, value@)));
            }
            entries.set(j, (key, value));
            return ;
        }
        j += 1;
    }
    proof {
        assert(entries_view(before.push((key, value))).drop_last() =~= entries_view(before));
    }
    entries.push((key, value));
}

/// Reads one pair of an object: a string, a colon and a value, with
/// whitespace allowed before each. Returns the key, the value and the
/// number of characters read.
pub fn parse_map_entry(chars: &[char]) -> (r: Result<(String, JSONValue, usize), ParseJSONError>)
    ensures
        match r {
            Ok((key, v, n)) => object_entry(chars@) == Ok::<((Seq<char>, Json), nat), Failure>(
                ((key@, v@), n as nat),
            ) && n <= chars.len() && v.wf(),
            Err(e) => object_entry(chars@) == Err::<((Seq<char>, Json), nat), Failure>(e@),
        },
    decreases chars@.len(), 3nat,
{
    let (key_value, n) = match parse_json_trim(chars) {
        Ok(next) => next,
        Err(e) => { return Err(e); },
    };
    let key = match key_value {
        JSONValue::String(s) => s,
        _ => {
            return Err(ParseJSONError::new(ErrorKind::NonStringKey, "Map key is not string"));
        },
    };
    let (tail, trimmed) = trim_start(slice_subrange(chars, n, chars.len()));
    let ghost d = n + trimmed;
    proof {
        assert(tail@ =~= chars@.skip(d));
    }
    if tail.len() == 0 {
        return Err(
            ParseJSONError::new(ErrorKind::UnexpectedEndOfInput, "Improperly delimited map entry"),
        );
    }
    if tail[0] != ':' {
        return Err(
            ParseJSONError::new(ErrorKind::UnexpectedCharacter, "Improperly delimited map entry"),
        );
    }
    let behind = slice_subrange(tail, 1, tail.len());
    proof {
        assert(behind@ =~= chars@.skip(d + 1));
    }
    match parse_json_trim(behind) {
        Ok((value, m)) => Ok((key, value, n + trimmed + 1 + m)),
        Err(e) => Err(e),
    }
}

/// Reads an object. `chars` starts with the opening brace.
///
/// A closing brace right behind the opening one gives the empty object, and
/// then only the opening brace is counted. Otherwise pairs follow, parted
/// by commas, up to the closing brace; the count takes in the closing
/// brace. Of two pairs with the same key the later one stays.
#[verifier::rlimit(60)]
pub fn parse_map(chars: &[char]) -> (r: Result<(JSONValue, usize), ParseJSONError>)
    requires
        chars.len() > 0,
        chars@[0] == '{',
    ensures
        agrees(r, object_value(chars@), chars@.len()),
    decreases chars@.len(), 0nat,
{
    let mut entries: Vec<(String, JSONValue)> = Vec::new();
    if chars.len() < 2 {
        return Err(ParseJSONError::new(ErrorKind::UnexpectedEndOfInput, "Unclosed map"));
    }
    if chars[1] == '}' {
        proof {
            JSONValue::lemma_object_view(entries);
            assert(entries_view(entries@) =~= Seq::empty());
        }
        return Ok((JSONValue::Object(entries), 1));
    }
    let mut rest = slice_subrange(chars, 1, chars.len());
    let mut length: usize = 1;
    let ghost mut read: Seq<(Seq<char>, Json)> = Seq::empty();
    proof {
        assert(read + object_entries(rest@)->Ok_0.0 =~= object_entries(rest@)->Ok_0.0);
        assert(entries_view(entries@) =~= read);
    }
    loop
        invariant
            chars.len() >= 2,
            chars@[1] != '}',
            1 <= length <= chars.len(),
            rest@ == chars@.skip(length as int),
            object_entries(chars@.skip(1)) == after(
                read,
                (length - 1) as nat,
                object_entries(rest@),
            ),
            map_of(entries_view(entries@)) == map_of(read),
            distinct_keys(entries@),
            forall|i: int| 0 <= i < entries.len() ==> (#[trigger] entries[i]).1.wf(),
        decreases rest@.len(),
    {
        if rest.len() == 0 {
            return Err(ParseJSONError::new(ErrorKind::UnexpectedEndOfInput, "Unclosed map"));
        }
        let (key, value, n) = match parse_map_entry(rest) {
            Ok(next) => next,
            Err(e) => { return Err(e); },
        };
        let (tail, trimmed) = trim_start(slice_subrange(rest, n, rest.len()));
        let ghost d = n + trimmed;
        let ghost entry = (key@, value@);
        proof {
            assert(tail@ =~= rest@.skip(d));
            assert(read.push(entry).drop_last() =~= read);
        }
        if tail.len() == 0 {
            return Err(ParseJSONError::new(ErrorKind::UnexpectedEndOfInput, "Unclosed map"));
        }
        let delimiter = tail[0];
        insert_entry(&mut entries, key, value);
        if delimiter == ',' {
            proof {
                lemma_after_push(
                    read,
                    (length - 1) as nat,
                    entry,
                    (d + 1) as nat,
                    object_entries(rest@.skip(d + 1)),
                );
                assert(tail@.skip(1) =~= rest@.skip(d + 1));
                assert(rest@.skip(d + 1) =~= chars@.skip(length + d + 1));
                read = read.push(entry);
            }
            rest = slice_subrange(tail, 1, tail.len());
            length = length + n + trimmed + 1;
        } else if delimiter == '}' {
            proof {
                assert(read + seq![entry] =~= read.push(entry));
                JSONValue::lemma_object_view(entries);
            }
            return Ok((JSONValue::Object(entries), length + n + trimmed + 1));
        } else {
            return Err(
                ParseJSONError::new(ErrorKind::UnexpectedCharacter, "Improperly delimited map"),
            );
        }
    }
}

/// Parses the characters of a text: the value at its start, behind any
/// whitespace. What follows the value is left unread.
pub fn parse_chars(input: &[char]) -> (r: Result<JSONValue, ParseJSONError>)
    ensures
        match r {
            Ok(v) => parse_text(input@) == Ok::<Json, Failure>(v@) && v.wf(),
            Err(e) => parse_text(input@) == Err::<Json, Failure>(e@),
        },
{
    match parse_json_trim(input) {
        Ok((v, _)) => Ok(v),
        Err(e) => Err(e),
    }
}

/// Parses a text: the value at its start, behind any whitespace. What
/// follows the value is left unread.
pub fn parse(text: &str) -> (r: Result<JSONValue, ParseJSONError>)
    ensures
        match r {
            Ok(v) => parse_text(text@) == Ok::<Json, Failure>(v@) && v.wf(),
            Err(e) => parse_text(text@) == Err::<Json, Failure>(e@),
        },
{
    let chars = chars_of(text);
    parse_chars(chars.as_slice())
}

impl std::str::FromStr for JSONValue {
    type Err = ParseJSONError;

    /// The same as [`parse`].
    fn from_str(input: &str) -> (r: Result<JSONValue, ParseJSONError>)
        ensures
            match r {
                Ok(v) => parse_text(input@) == Ok::<Json, Failure>(v@) && v.wf(),
                Err(e) => parse_text(input@) == Err::<Json, Failure>(e@),
            },
    {
        parse(input)
    }
}

} // verus!
