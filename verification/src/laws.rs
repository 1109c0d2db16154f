//! What holds of the grammar, proved from its definition.

use vstd::prelude::*;
use crate::error::Failure;
use crate::grammar::{
    after, digits_value, digits_wrapped, is_digit, is_space, leading_digits, leading_spaces,
    list_items, list_value, number_value, object_entries, object_entry, object_value, parse_text,
    parse_trimmed, parse_value, shifted, string_body, string_value,
};
use crate::value::Json;

verus! {

/// Leading whitespace never runs past the end, and a value behind
/// whitespace is the value that stands where the whitespace ends, with the
/// whitespace counted as read.
pub proof fn law_trimmed_is_value_behind_whitespace(s: Seq<char>)
    ensures
        leading_spaces(s) <= s.len(),
        parse_trimmed(s) == shifted(
            parse_value(s.skip(leading_spaces(s) as int)),
            leading_spaces(s),
        ),
    decreases s.len(),
{
    if s.len() > 0 && is_space(s[0]) {
        law_trimmed_is_value_behind_whitespace(s.skip(1));
        let t = leading_spaces(s.skip(1));
        assert(s.skip(1).skip(t as int) =~= s.skip((t + 1) as int));
    } else {
        assert(s.skip(0) =~= s);
    }
}

/// Whitespace before a value changes nothing but the count: the value
/// behind `spaces` is the value without them, read after that many more
/// characters, and a whole text parses to the same with or without them.
pub proof fn law_leading_whitespace_is_skipped(spaces: Seq<char>, s: Seq<char>)
    requires
        forall|i: int| 0 <= i < spaces.len() ==> is_space(spaces[i]),
    ensures
        parse_trimmed(spaces + s) == shifted(parse_trimmed(s), spaces.len()),
        parse_text(spaces + s) == parse_text(s),
        leading_spaces(spaces + s) == spaces.len() + leading_spaces(s),
    decreases spaces.len(),
{
    if spaces.len() == 0 {
        assert(spaces + s =~= s);
    } else {
        assert((spaces + s).skip(1) =~= spaces.skip(1) + s);
        law_leading_whitespace_is_skipped(spaces.skip(1), s);
    }
}

/// The three literals, spelt out, give their values and are read in
/// full, four, five and four characters, whatever follows them.
pub proof fn law_literals(rest: Seq<char>)
    ensures
        parse_value(seq!['t', 'r', 'u', 'e'] + rest) == Ok::<(Json, nat), Failure>(
            (Json::Boolean(true), 4),
        ),
        parse_value(seq!['f', 'a', 'l', 's', 'e'] + rest) == Ok::<(Json, nat), Failure>(
            (Json::Boolean(false), 5),
        ),
        parse_value(seq!['n', 'u', 'l', 'l'] + rest) == Ok::<(Json, nat), Failure>(
            (Json::Null, 4),
        ),
{
}

/// A run of digits that ends where `rest` begins is counted in full.
pub proof fn lemma_leading_digits(digits: Seq<char>, rest: Seq<char>)
    requires
        forall|i: int| 0 <= i < digits.len() ==> is_digit(digits[i]),
        rest.len() == 0 || !is_digit(rest[0]),
    ensures
        leading_digits(digits + rest) == digits.len(),
    decreases digits.len(),
{
    if digits.len() == 0 {
        assert(digits + rest =~= rest);
    } else {
        assert((digits + rest).skip(1) =~= digits.skip(1) + rest);
        lemma_leading_digits(digits.skip(1), rest);
    }
}

/// Digits that denote a number below 2^63 accumulate to that number; digits
/// that denote 2^63 itself accumulate to the least 64-bit number.
pub proof fn lemma_digits_wrapped(digits: Seq<char>)
    requires
        forall|i: int| 0 <= i < digits.len() ==> is_digit(digits[i]),
        digits_value(digits) <= 0x8000_0000_0000_0000,
    ensures
        0 <= digits_value(digits),
        digits_value(digits) < 0x8000_0000_0000_0000 ==> digits_wrapped(digits) == digits_value(
            digits,
        ),
        digits_value(digits) == 0x8000_0000_0000_0000 ==> digits_wrapped(digits) == i64::MIN,
    decreases digits.len(),
{
    if digits.len() > 0 {
        let front = digits.drop_last();
        lemma_digits_nonnegative(front);
        lemma_digits_wrapped(front);
    }
}

/// Digits denote no negative number.
pub proof fn lemma_digits_nonnegative(digits: Seq<char>)
    requires
        forall|i: int| 0 <= i < digits.len() ==> is_digit(digits[i]),
    ensures
        0 <= digits_value(digits),
    decreases digits.len(),
{
    if digits.len() > 0 {
        lemma_digits_nonnegative(digits.drop_last());
    }
}

/// The sign of a numeral as characters.
pub open spec fn sign_chars(negative: bool) -> Seq<char> {
    if negative {
        seq!['-']
    } else {
        Seq::empty()
    }
}

/// A numeral without a decimal point whose number fits in 64 bits is read
/// as exactly that number, sign and digits counted, where what follows is
/// neither a digit nor a decimal point. Without a sign it is also what a
/// value at that place is.
pub proof fn law_integer_is_exact(negative: bool, digits: Seq<char>, rest: Seq<char>)
    requires
        digits.len() > 0,
        forall|i: int| 0 <= i < digits.len() ==> is_digit(digits[i]),
        rest.len() == 0 || !(is_digit(rest[0]) || rest[0] == '.'),
        digits_value(digits) <= if negative {
            0x8000_0000_0000_0000int
        } else {
            0x7fff_ffff_ffff_ffffint
        },
    ensures
        number_value(sign_chars(negative) + digits + rest) == Ok::<(Json, nat), Failure>(
            (
                Json::Integer(
                    if negative {
                        -digits_value(digits)
                    } else {
                        digits_value(digits)
                    },
                ),
                sign_chars(negative).len() + digits.len(),
            ),
        ),
        !negative ==> parse_value(digits + rest) == number_value(digits + rest),
{
    let text = sign_chars(negative) + digits + rest;
    let start = sign_chars(negative).len() as int;
    assert(text[0] == '-' <==> negative);
    assert(text.skip(start) =~= digits + rest);
    lemma_leading_digits(digits, rest);
    let dot = start + digits.len();
    assert(text.subrange(start, dot) =~= digits);
    lemma_digits_wrapped(digits);
    if !negative {
        assert(text =~= digits + rest);
    }
}

/// A numeral with a decimal point is kept exactly: the number before the
/// point, the number behind it and the count of digits behind it, where
/// each number is below 2^63 and what follows is neither a digit nor a
/// decimal point.
pub proof fn law_decimal_is_exact(
    negative: bool,
    whole: Seq<char>,
    fraction: Seq<char>,
    rest: Seq<char>,
)
    requires
        forall|i: int| 0 <= i < whole.len() ==> is_digit(whole[i]),
        forall|i: int| 0 <= i < fraction.len() ==> is_digit(fraction[i]),
        rest.len() == 0 || !(is_digit(rest[0]) || rest[0] == '.'),
        digits_value(whole) < 0x8000_0000_0000_0000,
        digits_value(fraction) < 0x8000_0000_0000_0000,
    ensures
        number_value(sign_chars(negative) + whole + seq!['.'] + fraction + rest) == Ok::<
            (Json, nat),
            Failure,
        >(
            (
                Json::Decimal {
                    negative,
                    whole: digits_value(whole),
                    fraction: digits_value(fraction),
                    scale: fraction.len(),
                },
                sign_chars(negative).len() + whole.len() + 1 + fraction.len(),
            ),
        ),
{
    let text = sign_chars(negative) + whole + seq!['.'] + fraction + rest;
    let start = sign_chars(negative).len() as int;
    assert(text[0] == '-' <==> negative);
    assert(text.skip(start) =~= whole + (seq!['.'] + fraction + rest));
    lemma_leading_digits(whole, seq!['.'] + fraction + rest);
    let dot = start + whole.len();
    assert(text.subrange(start, dot) =~= whole);
    assert(text[dot] == '.');
    assert(text.skip(dot + 1) =~= fraction + rest);
    lemma_leading_digits(fraction, rest);
    let end = dot + 1 + fraction.len();
    assert(text.subrange(dot + 1, end) =~= fraction);
    lemma_digits_wrapped(whole);
    lemma_digits_wrapped(fraction);
}

/// How a text is written between the quotes so that it reads back as
/// itself: a backslash before each quote and each backslash, and the
/// escapes for newline, tab and carriage return.
pub open spec fn escaped(text: Seq<char>) -> Seq<char>
    decreases text.len(),
{
    if text.len() == 0 {
        Seq::empty()
    } else {
        let c = text[0];
        let first = if c == '\n' {
            seq!['\\', 'n']
        } else if c == '\t' {
            seq!['\\', 't']
        } else if c == '\r' {
            seq!['\\', 'r']
        } else if c == '"' || c == '\\' {
            seq!['\\', c]
        } else {
            seq![c]
        };
        first + escaped(text.skip(1))
    }
}

/// Any text, written with its escapes between two quotes, is read back as
/// that text, and the count takes in both quotes, whatever follows.
pub proof fn law_string_round_trip(text: Seq<char>, rest: Seq<char>)
    ensures
        string_value(seq!['"'] + escaped(text) + seq!['"'] + rest) == Ok::<(Json, nat), Failure>(
            (Json::String(text), escaped(text).len() + 2),
        ),
        parse_value(seq!['"'] + escaped(text) + seq!['"'] + rest) == string_value(
            seq!['"'] + escaped(text) + seq!['"'] + rest,
        ),
{
    let s = seq!['"'] + escaped(text) + seq!['"'] + rest;
    assert(s.skip(1) =~= escaped(text) + seq!['"'] + rest);
    lemma_string_body(text, rest);
}

/// The body of a string, written with its escapes and closed by a quote,
/// is read back as the text.
pub proof fn lemma_string_body(text: Seq<char>, rest: Seq<char>)
    ensures
        string_body(escaped(text) + seq!['"'] + rest) == Ok::<(Seq<char>, nat), Failure>(
            (text, escaped(text).len() + 1),
        ),
    decreases text.len(),
{
    let s = escaped(text) + seq!['"'] + rest;
    if text.len() == 0 {
        assert(s[0] == '"');
        assert(text =~= Seq::empty());
    } else {
        let c = text[0];
        let tail = text.skip(1);
        let behind = escaped(tail) + seq!['"'] + rest;
        lemma_string_body(tail, rest);
        if c == '\n' || c == '\t' || c == '\r' || c == '"' || c == '\\' {
            assert(s[0] == '\\');
            assert(crate::grammar::unescape(s[1]) == c);
            assert(s.skip(2) =~= behind);
            assert(escaped(text).len() == escaped(tail).len() + 2);
        } else {
            assert(s[0] == c);
            assert(s.skip(1) =~= behind);
            assert(escaped(text).len() == escaped(tail).len() + 1);
        }
        assert(seq![c] + tail =~= text);
    }
}

/// Where the items of a list are read, the last character read is the
/// closing bracket, and no more is read than is there.
pub proof fn lemma_list_items_end(s: Seq<char>)
    requires
        list_items(s) is Ok,
    ensures
        1 <= list_items(s)->Ok_0.1 <= s.len(),
        s[list_items(s)->Ok_0.1 - 1] == ']',
        list_items(s)->Ok_0.0.len() >= 1,
    decreases s.len(),
{
    let (v, n) = parse_trimmed(s)->Ok_0;
    let d = n + leading_spaces(s.skip(n as int));
    if s[d as int] == ',' {
        lemma_list_items_end(s.skip((d + 1) as int));
    }
}

/// Where the pairs of an object are read, the last character read is the
/// closing brace, and no more is read than is there.
pub proof fn lemma_object_entries_end(s: Seq<char>)
    requires
        object_entries(s) is Ok,
    ensures
        1 <= object_entries(s)->Ok_0.1 <= s.len(),
        s[object_entries(s)->Ok_0.1 - 1] == '}',
    decreases s.len(),
{
    let (entry, n) = object_entry(s)->Ok_0;
    let d = n + leading_spaces(s.skip(n as int));
    if s[d as int] == ',' {
        lemma_object_entries_end(s.skip((d + 1) as int));
    }
}

/// A list that is read ends within the input. Where a closing bracket
/// stands right behind the opening one, the list is empty and one character
/// is counted; in every other case the list has an item and the last
/// character counted is its closing bracket.
pub proof fn law_list_span(s: Seq<char>)
    requires
        list_value(s) is Ok,
    ensures
        list_value(s)->Ok_0.0 is List,
        list_value(s)->Ok_0.1 <= s.len(),
        s[1] == ']' ==> list_value(s)->Ok_0 == (Json::List(Seq::empty()), 1nat),
        s[1] != ']' ==> list_value(s)->Ok_0.0->List_0.len() >= 1 && list_value(s)->Ok_0.1 >= 3
            && s[list_value(s)->Ok_0.1 - 1] == ']',
{
    if s[1] != ']' {
        lemma_list_items_end(s.skip(1));
        law_trimmed_is_value_behind_whitespace(s.skip(1));
    }
}

/// An object that is read ends within the input. Where a closing brace
/// stands right behind the opening one, the object is empty and one
/// character is counted; in every other case the last character counted is
/// its closing brace.
pub proof fn law_object_span(s: Seq<char>)
    requires
        object_value(s) is Ok,
    ensures
        object_value(s)->Ok_0.0 is Object,
        object_value(s)->Ok_0.1 <= s.len(),
        s[1] == '}' ==> object_value(s)->Ok_0 == (Json::Object(Map::empty()), 1nat),
        s[1] != '}' ==> object_value(s)->Ok_0.1 >= 2 && s[object_value(s)->Ok_0.1 - 1] == '}',
{
    if s[1] != '}' {
        lemma_object_entries_end(s.skip(1));
    }
}

/// A run of digits is no longer than the sequence it starts.
pub proof fn lemma_leading_digits_bound(s: Seq<char>)
    ensures
        leading_digits(s) <= s.len(),
        s.len() > 0 && is_digit(s[0]) ==> leading_digits(s) >= 1,
    decreases s.len(),
{
    if s.len() > 0 && is_digit(s[0]) {
        lemma_leading_digits_bound(s.skip(1));
    }
}

/// What is read of a string's body ends within it.
pub proof fn lemma_string_body_bound(s: Seq<char>)
    requires
        string_body(s) is Ok,
    ensures
        1 <= string_body(s)->Ok_0.1 <= s.len(),
    decreases s.len(),
{
    if s[0] == '"' {
    } else if s[0] == '\\' {
        lemma_string_body_bound(s.skip(2));
    } else {
        lemma_string_body_bound(s.skip(1));
    }
}

/// A numeral that starts with a digit or a decimal point takes at least
/// that character and ends within the input.
pub proof fn lemma_number_bound(s: Seq<char>)
    requires
        s.len() > 0,
        is_digit(s[0]) || s[0] == '.',
        number_value(s) is Ok,
    ensures
        1 <= number_value(s)->Ok_0.1 <= s.len(),
{
    assert(s.skip(0) =~= s);
    lemma_leading_digits_bound(s);
    let dot = leading_digits(s) as int;
    if dot < s.len() {
        lemma_leading_digits_bound(s.skip(dot + 1));
    }
}

/// A value that is read takes at least one character and no more than
/// there are.
pub proof fn law_value_within_input(s: Seq<char>)
    requires
        parse_value(s) is Ok,
    ensures
        1 <= parse_value(s)->Ok_0.1 <= s.len(),
{
    if s[0] == '"' {
        lemma_string_body_bound(s.skip(1));
    } else if s[0] == '[' {
        law_list_span(s);
    } else if s[0] == '{' {
        law_object_span(s);
    } else if is_digit(s[0]) || s[0] == '.' {
        lemma_number_bound(s);
    }
}

/// A value that is read behind whitespace takes at least one character and
/// no more than there are, the whitespace included.
pub proof fn law_trimmed_within_input(s: Seq<char>)
    requires
        parse_trimmed(s) is Ok,
    ensures
        1 <= parse_trimmed(s)->Ok_0.1 <= s.len(),
{
    law_trimmed_is_value_behind_whitespace(s);
    law_value_within_input(s.skip(leading_spaces(s) as int));
}

/// `s` with `spaces` put in before index `n`.
pub open spec fn padded(s: Seq<char>, n: nat, spaces: Seq<char>) -> Seq<char> {
    s.take(n as int) + spaces + s.skip(n as int)
}

/// Whitespace put in at index `n` adds to the whitespace that starts
/// there, and moves what stands behind it.
pub proof fn lemma_padded(s: Seq<char>, n: nat, spaces: Seq<char>, d: nat)
    requires
        n <= s.len(),
        forall|i: int| 0 <= i < spaces.len() ==> is_space(spaces[i]),
        d == n + leading_spaces(s.skip(n as int)),
    ensures
        d <= s.len(),
        padded(s, n, spaces).len() == s.len() + spaces.len(),
        n + leading_spaces(padded(s, n, spaces).skip(n as int)) == d + spaces.len(),
        d < s.len() ==> padded(s, n, spaces)[(d + spaces.len()) as int] == s[d as int],
        d < s.len() ==> padded(s, n, spaces).skip((d + spaces.len() + 1) as int) == s.skip((d + 1) as int),
{
    let p = padded(s, n, spaces);
    assert(p.skip(n as int) =~= spaces + s.skip(n as int));
    law_leading_whitespace_is_skipped(spaces, s.skip(n as int));
    law_trimmed_is_value_behind_whitespace(s.skip(n as int));
    if d < s.len() {
        assert(p.skip((d + spaces.len() + 1) as int) =~= s.skip((d + 1) as int));
    }
}

/// Whitespace between an item of a list and the comma or bracket behind it
/// changes nothing but the count, where the item itself reads the same.
pub proof fn law_whitespace_before_list_delimiter(s: Seq<char>, spaces: Seq<char>)
    requires
        forall|i: int| 0 <= i < spaces.len() ==> is_space(spaces[i]),
        parse_trimmed(s) is Ok,
        parse_trimmed(padded(s, parse_trimmed(s)->Ok_0.1, spaces)) == parse_trimmed(s),
    ensures
        list_items(padded(s, parse_trimmed(s)->Ok_0.1, spaces)) == shifted(
            list_items(s),
            spaces.len(),
        ),
{
    let n = parse_trimmed(s)->Ok_0.1;
    law_trimmed_within_input(s);
    lemma_padded(s, n, spaces, n + leading_spaces(s.skip(n as int)));
}

/// Whitespace between a pair of an object and the comma or brace behind it
/// changes nothing but the count, where the pair itself reads the same.
pub proof fn law_whitespace_before_object_delimiter(s: Seq<char>, spaces: Seq<char>)
    requires
        forall|i: int| 0 <= i < spaces.len() ==> is_space(spaces[i]),
        object_entry(s) is Ok,
        object_entry(s)->Ok_0.1 <= s.len(),
        object_entry(padded(s, object_entry(s)->Ok_0.1, spaces)) == object_entry(s),
    ensures
        object_entries(padded(s, object_entry(s)->Ok_0.1, spaces)) == shifted(
            object_entries(s),
            spaces.len(),
        ),
{
    let n = object_entry(s)->Ok_0.1;
    lemma_padded(s, n, spaces, n + leading_spaces(s.skip(n as int)));
}

/// Whitespace between the key of a pair and its colon changes nothing but
/// the count, where the key itself reads the same.
pub proof fn law_whitespace_before_colon(s: Seq<char>, spaces: Seq<char>)
    requires
        forall|i: int| 0 <= i < spaces.len() ==> is_space(spaces[i]),
        parse_trimmed(s) is Ok,
        parse_trimmed(padded(s, parse_trimmed(s)->Ok_0.1, spaces)) == parse_trimmed(s),
    ensures
        object_entry(padded(s, parse_trimmed(s)->Ok_0.1, spaces)) == shifted(
            object_entry(s),
            spaces.len(),
        ),
{
    let n = parse_trimmed(s)->Ok_0.1;
    law_trimmed_within_input(s);
    lemma_padded(s, n, spaces, n + leading_spaces(s.skip(n as int)));
}

/// Leading whitespace is whitespace throughout, and what stands behind
/// it, if anything, is none.
pub proof fn law_leading_spaces_are_maximal(s: Seq<char>)
    ensures
        leading_spaces(s) <= s.len(),
        forall|i: int| 0 <= i < leading_spaces(s) ==> is_space(s[i]),
        leading_spaces(s) < s.len() ==> !is_space(s[leading_spaces(s) as int]),
    decreases s.len(),
{
    if s.len() > 0 && is_space(s[0]) {
        law_leading_spaces_are_maximal(s.skip(1));
        assert forall|i: int| 0 <= i < leading_spaces(s) implies is_space(s[i]) by {
            if i > 0 {
                assert(s[i] == s.skip(1)[i - 1]);
            }
        }
    }
}

/// Ten to the power `n`.
pub open spec fn pow10(n: nat) -> int
    decreases n,
{
    if n == 0 {
        1
    } else {
        10 * pow10((n - 1) as nat)
    }
}

/// The digits before and behind a decimal point, read as one run, denote
/// the number before the point times ten to the count of digits behind it,
/// plus the number behind it: the parts of a decimal lose nothing.
pub proof fn law_decimal_parts_are_the_digits(whole: Seq<char>, fraction: Seq<char>)
    ensures
        digits_value(whole + fraction) == digits_value(whole) * pow10(fraction.len())
            + digits_value(fraction),
    decreases fraction.len(),
{
    if fraction.len() == 0 {
        assert(whole + fraction =~= whole);
    } else {
        let front = fraction.drop_last();
        assert((whole + fraction).drop_last() =~= whole + front);
        law_decimal_parts_are_the_digits(whole, front);
        let w = digits_value(whole);
        let p = pow10(front.len());
        let f = digits_value(front);
        let d = fraction.last() as int - '0' as int;
        assert((w * p + f) * 10 + d == w * (10 * p) + (f * 10 + d)) by (nonlinear_arith);
    }
}

} // verus!
