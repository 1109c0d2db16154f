use jsonparser::{
    assemble_num, chars_of, insert_entry, is_digit_char, is_whitespace, parse, parse_chars,
    parse_json, parse_json_trim, parse_list, parse_map, parse_map_entry, parse_num,
    parse_string, scan_digits, trim_start, unescape_char, ErrorKind, JSONValue, ParseJSONError,
};

fn chars(s: &str) -> Vec<char> {
    s.chars().collect()
}

fn as_f64(v: &JSONValue) -> f64 {
    match v {
        JSONValue::Decimal { negative, whole, fraction, scale } => {
            let magnitude = *whole as f64 + *fraction as f64 * 10f64.powi(-(*scale as i32));
            if *negative {
                -magnitude
            } else {
                magnitude
            }
        }
        other => panic!("not a decimal: {:?}", other),
    }
}

fn kind_of<T: std::fmt::Debug>(r: Result<T, ParseJSONError>) -> ErrorKind {
    match r {
        Ok(v) => panic!("parsed: {:?}", v),
        Err(e) => e.kind(),
    }
}

fn lookup<'a>(v: &'a JSONValue, key: &str) -> &'a JSONValue {
    match v {
        JSONValue::Object(entries) => {
            let found: Vec<&(String, JSONValue)> =
                entries.iter().filter(|e| e.0 == key).collect();
            assert_eq!(found.len(), 1);
            &found[0].1
        }
        other => panic!("not an object: {:?}", other),
    }
}

#[test]
fn literal_true_is_read_in_four_characters() {
    let (v, n) = parse_json(&chars("true")).unwrap();
    assert!(matches!(v, JSONValue::Boolean(true)));
    assert_eq!(n, 4);
}

#[test]
fn literal_false_is_read_in_five_characters() {
    let (v, n) = parse_json(&chars("false")).unwrap();
    assert!(matches!(v, JSONValue::Boolean(false)));
    assert_eq!(n, 5);
}

#[test]
fn literal_null_is_read_in_four_characters() {
    let (v, n) = parse_json(&chars("null")).unwrap();
    assert!(matches!(v, JSONValue::Null));
    assert_eq!(n, 4);
}

#[test]
fn literal_leaves_what_follows_unread() {
    let (v, n) = parse_json(&chars("true, 1]")).unwrap();
    assert!(matches!(v, JSONValue::Boolean(true)));
    assert_eq!(n, 4);
    let (v, n) = parse_json(&chars("nullx")).unwrap();
    assert!(matches!(v, JSONValue::Null));
    assert_eq!(n, 4);
}

#[test]
fn misspelt_literal_is_refused() {
    assert_eq!(kind_of(parse("tru")), ErrorKind::UnexpectedCharacter);
    assert_eq!(kind_of(parse("t")), ErrorKind::UnexpectedCharacter);
    assert_eq!(kind_of(parse("fals")), ErrorKind::UnexpectedCharacter);
    assert_eq!(kind_of(parse("falsy")), ErrorKind::UnexpectedCharacter);
    assert_eq!(kind_of(parse("nul1")), ErrorKind::UnexpectedCharacter);
}

#[test]
fn integer_is_exact() {
    assert!(matches!(parse("0").unwrap(), JSONValue::Integer(0)));
    assert!(matches!(parse("42").unwrap(), JSONValue::Integer(42)));
    assert!(matches!(parse("007").unwrap(), JSONValue::Integer(7)));
    assert!(matches!(parse("9223372036854775807").unwrap(), JSONValue::Integer(i64::MAX)));
}

#[test]
fn negative_integer_is_exact_in_the_number_parser() {
    let (v, n) = parse_num(&chars("-17,")).unwrap();
    assert!(matches!(v, JSONValue::Integer(-17)));
    assert_eq!(n, 3);
    let (v, n) = parse_num(&chars("-9223372036854775808")).unwrap();
    assert!(matches!(v, JSONValue::Integer(i64::MIN)));
    assert_eq!(n, 20);
}

#[test]
fn integer_beyond_64_bits_wraps() {
    assert!(matches!(parse("9223372036854775808").unwrap(), JSONValue::Integer(i64::MIN)));
    assert!(matches!(parse("18446744073709551617").unwrap(), JSONValue::Integer(1)));
}

#[test]
fn minus_sign_does_not_start_a_value() {
    assert_eq!(kind_of(parse("-3.14")), ErrorKind::UnexpectedCharacter);
    assert_eq!(kind_of(parse("-1")), ErrorKind::UnexpectedCharacter);
}

#[test]
fn negative_decimal_in_the_number_parser() {
    let (v, n) = parse_num(&chars("-3.14")).unwrap();
    assert_eq!(n, 5);
    match &v {
        JSONValue::Decimal { negative, whole, fraction, scale } => {
            assert!(*negative);
            assert_eq!(*whole, 3);
            assert_eq!(*fraction, 14);
            assert_eq!(*scale, 2);
        }
        other => panic!("not a decimal: {:?}", other),
    }
    assert!((as_f64(&v) - (-3.14)).abs() < 1e-12);
}

#[test]
fn decimal_keeps_its_parts() {
    let v = parse("2.5").unwrap();
    assert_eq!(as_f64(&v), 2.5);
    let v = parse("10.0625]").unwrap();
    match &v {
        JSONValue::Decimal { negative, whole, fraction, scale } => {
            assert!(!*negative);
            assert_eq!(*whole, 10);
            assert_eq!(*fraction, 625);
            assert_eq!(*scale, 4);
        }
        other => panic!("not a decimal: {:?}", other),
    }
    assert_eq!(as_f64(&v), 10.0625);
}

#[test]
fn bare_point_and_bare_sign_are_numerals() {
    let (v, n) = parse_num(&chars(".")).unwrap();
    assert_eq!(n, 1);
    assert!(matches!(v, JSONValue::Decimal { negative: false, whole: 0, fraction: 0, scale: 0 }));
    let (v, n) = parse_num(&chars("-")).unwrap();
    assert_eq!(n, 1);
    assert!(matches!(v, JSONValue::Integer(0)));
    let (v, n) = parse_num(&chars(".5")).unwrap();
    assert_eq!(n, 2);
    assert_eq!(as_f64(&v), 0.5);
    let (v, n) = parse_num(&chars("x")).unwrap();
    assert_eq!(n, 0);
    assert!(matches!(v, JSONValue::Integer(0)));
}

#[test]
fn second_decimal_point_is_refused() {
    assert_eq!(kind_of(parse("1.2.3")), ErrorKind::MalformedNumber);
    assert_eq!(kind_of(parse("1..")), ErrorKind::MalformedNumber);
    assert_eq!(kind_of(parse_num(&chars("-1.2.3"))), ErrorKind::MalformedNumber);
}

#[test]
fn number_stops_at_first_other_character() {
    let (v, n) = parse_num(&chars("12-3")).unwrap();
    assert!(matches!(v, JSONValue::Integer(12)));
    assert_eq!(n, 2);
    let (v, n) = parse_num(&chars("12 ")).unwrap();
    assert!(matches!(v, JSONValue::Integer(12)));
    assert_eq!(n, 2);
}

#[test]
fn scan_digits_counts_and_accumulates() {
    assert_eq!(scan_digits(&chars("ab123c"), 2), (123, 3));
    assert_eq!(scan_digits(&chars("ab123c"), 0), (0, 0));
    assert_eq!(scan_digits(&chars("77"), 2), (0, 0));
    assert_eq!(scan_digits(&chars("9223372036854775808"), 0), (i64::MIN, 19));
}

#[test]
fn assemble_num_applies_the_sign_to_integers() {
    assert!(matches!(assemble_num(5, None, false), JSONValue::Integer(5)));
    assert!(matches!(assemble_num(5, None, true), JSONValue::Integer(-5)));
    assert!(matches!(assemble_num(i64::MIN, None, true), JSONValue::Integer(i64::MIN)));
    assert!(matches!(
        assemble_num(5, Some((25, 2)), true),
        JSONValue::Decimal { negative: true, whole: 5, fraction: 25, scale: 2 }
    ));
}

#[test]
fn string_with_newline_escape() {
    match parse("\"hi\\nthere\"").unwrap() {
        JSONValue::String(s) => assert_eq!(s, "hi\nthere"),
        other => panic!("not a string: {:?}", other),
    }
}

#[test]
fn string_escapes_decode() {
    let (v, n) = parse_string(&chars("\"a\\tb\\rc\\\"d\\\\e\\/f\\ug\" tail")).unwrap();
    match v {
        JSONValue::String(s) => assert_eq!(s, "a\tb\rc\"d\\e/fug"),
        other => panic!("not a string: {:?}", other),
    }
    assert_eq!(n, 21);
}

#[test]
fn empty_string_is_two_characters() {
    let (v, n) = parse_string(&chars("\"\"")).unwrap();
    match v {
        JSONValue::String(s) => assert_eq!(s, ""),
        other => panic!("not a string: {:?}", other),
    }
    assert_eq!(n, 2);
}

#[test]
fn plain_string_reads_back() {
    let text = "plain text, with n t r and [brackets] {braces}";
    let quoted = format!("\"{}\"", text);
    let (v, n) = parse_string(&chars(&quoted)).unwrap();
    match v {
        JSONValue::String(s) => assert_eq!(s, text),
        other => panic!("not a string: {:?}", other),
    }
    assert_eq!(n, text.chars().count() + 2);
}

#[test]
fn unterminated_string_is_refused() {
    assert_eq!(kind_of(parse("\"unterminated")), ErrorKind::UnterminatedString);
    assert_eq!(kind_of(parse("\"")), ErrorKind::UnterminatedString);
    assert_eq!(kind_of(parse("\"abc\\")), ErrorKind::UnterminatedString);
    assert_eq!(kind_of(parse("\"abc\\\"")), ErrorKind::UnterminatedString);
}

#[test]
fn unescape_char_maps_three_letters() {
    assert_eq!(unescape_char('n'), '\n');
    assert_eq!(unescape_char('t'), '\t');
    assert_eq!(unescape_char('r'), '\r');
    assert_eq!(unescape_char('"'), '"');
    assert_eq!(unescape_char('\\'), '\\');
    assert_eq!(unescape_char('u'), 'u');
}

#[test]
fn empty_list() {
    match parse("[]").unwrap() {
        JSONValue::List(items) => assert!(items.is_empty()),
        other => panic!("not a list: {:?}", other),
    }
}

#[test]
fn empty_list_counts_the_opening_bracket_only() {
    let (v, n) = parse_list(&chars("[]")).unwrap();
    assert!(matches!(v, JSONValue::List(ref items) if items.is_empty()));
    assert_eq!(n, 1);
    let (v, n) = parse_map(&chars("{}")).unwrap();
    assert!(matches!(v, JSONValue::Object(ref entries) if entries.is_empty()));
    assert_eq!(n, 1);
}

#[test]
fn space_inside_empty_brackets_is_refused() {
    assert_eq!(kind_of(parse("[ ]")), ErrorKind::UnexpectedCharacter);
    assert_eq!(kind_of(parse("{ }")), ErrorKind::UnexpectedCharacter);
}

#[test]
fn list_counts_up_to_its_closing_bracket() {
    let (v, n) = parse_list(&chars("[1, 2]xyz")).unwrap();
    match v {
        JSONValue::List(items) => {
            assert_eq!(items.len(), 2);
            assert!(matches!(items[0], JSONValue::Integer(1)));
            assert!(matches!(items[1], JSONValue::Integer(2)));
        }
        other => panic!("not a list: {:?}", other),
    }
    assert_eq!(n, 6);
}

#[test]
fn nested_lists() {
    let text = "[[1,2],[3,[4]],\"x\"]";
    let (v, n) = parse_json(&chars(text)).unwrap();
    assert_eq!(n, text.len());
    match v {
        JSONValue::List(items) => {
            assert_eq!(items.len(), 3);
            match &items[0] {
                JSONValue::List(inner) => {
                    assert_eq!(inner.len(), 2);
                    assert!(matches!(inner[0], JSONValue::Integer(1)));
                    assert!(matches!(inner[1], JSONValue::Integer(2)));
                }
                other => panic!("not a list: {:?}", other),
            }
            match &items[1] {
                JSONValue::List(inner) => {
                    assert_eq!(inner.len(), 2);
                    assert!(matches!(inner[0], JSONValue::Integer(3)));
                    match &inner[1] {
                        JSONValue::List(innermost) => {
                            assert_eq!(innermost.len(), 1);
                            assert!(matches!(innermost[0], JSONValue::Integer(4)));
                        }
                        other => panic!("not a list: {:?}", other),
                    }
                }
                other => panic!("not a list: {:?}", other),
            }
            assert!(matches!(&items[2], JSONValue::String(s) if s == "x"));
        }
        other => panic!("not a list: {:?}", other),
    }
}

#[test]
fn unclosed_list_is_refused() {
    assert_eq!(kind_of(parse("[")), ErrorKind::UnexpectedEndOfInput);
    assert_eq!(kind_of(parse("[1, 2")), ErrorKind::UnexpectedEndOfInput);
    assert_eq!(kind_of(parse("[1,")), ErrorKind::UnexpectedEndOfInput);
    assert_eq!(kind_of(parse("[1,  ")), ErrorKind::UnexpectedEndOfInput);
}

#[test]
fn badly_delimited_list_is_refused() {
    assert_eq!(kind_of(parse("[1 2]")), ErrorKind::UnexpectedCharacter);
    assert_eq!(kind_of(parse("[1;2]")), ErrorKind::UnexpectedCharacter);
    assert_eq!(kind_of(parse("[1,]")), ErrorKind::UnexpectedCharacter);
}

#[test]
fn object_with_list() {
    let v = parse("{\"a\": 1, \"b\": [true, null, 2.5]}").unwrap();
    match &v {
        JSONValue::Object(entries) => assert_eq!(entries.len(), 2),
        other => panic!("not an object: {:?}", other),
    }
    assert!(matches!(lookup(&v, "a"), JSONValue::Integer(1)));
    match lookup(&v, "b") {
        JSONValue::List(items) => {
            assert_eq!(items.len(), 3);
            assert!(matches!(items[0], JSONValue::Boolean(true)));
            assert!(matches!(items[1], JSONValue::Null));
            assert_eq!(as_f64(&items[2]), 2.5);
        }
        other => panic!("not a list: {:?}", other),
    }
}

#[test]
fn object_counts_up_to_its_closing_brace() {
    let text = "{\"k\": {\"inner\": [1]}, \"z\": null} rest";
    let (v, n) = parse_map(&chars(text)).unwrap();
    assert_eq!(n, text.len() - 5);
    match lookup(&v, "k") {
        inner @ JSONValue::Object(_) => match lookup(inner, "inner") {
            JSONValue::List(items) => assert!(matches!(items[0], JSONValue::Integer(1))),
            other => panic!("not a list: {:?}", other),
        },
        other => panic!("not an object: {:?}", other),
    }
    assert!(matches!(lookup(&v, "z"), JSONValue::Null));
}

#[test]
fn later_pair_replaces_earlier_with_same_key() {
    let v = parse("{\"a\": 1, \"b\": 2, \"a\": 3}").unwrap();
    match &v {
        JSONValue::Object(entries) => {
            assert_eq!(entries.len(), 2);
            assert_eq!(entries[0].0, "a");
            assert_eq!(entries[1].0, "b");
        }
        other => panic!("not an object: {:?}", other),
    }
    assert!(matches!(lookup(&v, "a"), JSONValue::Integer(3)));
    assert!(matches!(lookup(&v, "b"), JSONValue::Integer(2)));
}

#[test]
fn insert_entry_replaces_or_appends() {
    let mut entries: Vec<(String, JSONValue)> = Vec::new();
    insert_entry(&mut entries, "x".to_string(), JSONValue::Integer(1));
    insert_entry(&mut entries, "y".to_string(), JSONValue::Null);
    insert_entry(&mut entries, "x".to_string(), JSONValue::Boolean(true));
    assert_eq!(entries.len(), 2);
    assert_eq!(entries[0].0, "x");
    assert!(matches!(entries[0].1, JSONValue::Boolean(true)));
    assert_eq!(entries[1].0, "y");
    assert!(matches!(entries[1].1, JSONValue::Null));
}

#[test]
fn key_that_is_no_string_is_refused() {
    assert_eq!(kind_of(parse("{1: 2}")), ErrorKind::NonStringKey);
    assert_eq!(kind_of(parse("{true: 2}")), ErrorKind::NonStringKey);
    assert_eq!(kind_of(parse("{[1]: 2}")), ErrorKind::NonStringKey);
}

#[test]
fn unclosed_object_is_refused() {
    assert_eq!(kind_of(parse("{")), ErrorKind::UnexpectedEndOfInput);
    assert_eq!(kind_of(parse("{\"a\": 1")), ErrorKind::UnexpectedEndOfInput);
    assert_eq!(kind_of(parse("{\"a\": 1,")), ErrorKind::UnexpectedEndOfInput);
    assert_eq!(kind_of(parse("{\"a\"")), ErrorKind::UnexpectedEndOfInput);
    assert_eq!(kind_of(parse("{\"a\":")), ErrorKind::UnexpectedEndOfInput);
}

#[test]
fn badly_delimited_object_is_refused() {
    assert_eq!(kind_of(parse("{\"a\" 1}")), ErrorKind::UnexpectedCharacter);
    assert_eq!(kind_of(parse("{\"a\": 1 \"b\": 2}")), ErrorKind::UnexpectedCharacter);
    assert_eq!(kind_of(parse("{\"a\": 1]")), ErrorKind::UnexpectedCharacter);
}

#[test]
fn map_entry_counts_key_colon_and_value() {
    let (key, value, n) = parse_map_entry(&chars("  \"k\" :  [1] , more")).unwrap();
    assert_eq!(key, "k");
    assert!(matches!(value, JSONValue::List(ref items) if items.len() == 1));
    assert_eq!(n, 12);
}

#[test]
fn integer_between_whitespace() {
    assert!(matches!(parse("  42  ").unwrap(), JSONValue::Integer(42)));
    let (v, n) = parse_json_trim(&chars("  42  ")).unwrap();
    assert!(matches!(v, JSONValue::Integer(42)));
    assert_eq!(n, 4);
}

#[test]
fn whitespace_between_tokens_changes_nothing() {
    let dense = parse("{\"a\":[1,2,{\"b\":null}],\"c\":\"d\"}").unwrap();
    let loose =
        parse(" \t\n{ \"a\" :\n[ 1 ,\t2 , { \"b\" : null } ] , \"c\"\r\n:\t\"d\" } ").unwrap();
    assert_eq!(format!("{:?}", dense), format!("{:?}", loose));
}

#[test]
fn leading_whitespace_adds_to_the_count() {
    let (_, plain) = parse_json_trim(&chars("[1,2]")).unwrap();
    let (_, padded) = parse_json_trim(&chars(" \n\t[1,2]")).unwrap();
    assert_eq!(plain, 5);
    assert_eq!(padded, 8);
}

#[test]
fn trim_start_counts_leading_whitespace() {
    let input = chars("  \t\nab c ");
    let (rest, n) = trim_start(&input);
    assert_eq!(n, 4);
    assert_eq!(rest, &chars("ab c ")[..]);
    let input = chars("abc");
    let (rest, n) = trim_start(&input);
    assert_eq!(n, 0);
    assert_eq!(rest, &input[..]);
    let input = chars(" \t ");
    let (rest, n) = trim_start(&input);
    assert_eq!(n, 3);
    assert!(rest.is_empty());
    let (rest, n) = trim_start(&[]);
    assert_eq!(n, 0);
    assert!(rest.is_empty());
}

#[test]
fn whitespace_is_the_unicode_property() {
    for code in 0u32..=0x10FFFF {
        if let Some(c) = char::from_u32(code) {
            assert_eq!(is_whitespace(c), c.is_whitespace(), "U+{:04X}", code);
        }
    }
    assert!(is_whitespace('\u{A0}'));
    assert!(is_whitespace('\u{3000}'));
    assert!(!is_whitespace('a'));
}

#[test]
fn digits_are_the_ten_ascii_digits() {
    for c in "0123456789".chars() {
        assert!(is_digit_char(c));
    }
    assert!(!is_digit_char('/'));
    assert!(!is_digit_char(':'));
    assert!(!is_digit_char('a'));
    assert!(!is_digit_char('\u{0663}'));
}

#[test]
fn empty_input_is_refused() {
    assert_eq!(kind_of(parse("")), ErrorKind::UnexpectedEndOfInput);
    assert_eq!(kind_of(parse("   ")), ErrorKind::UnexpectedEndOfInput);
    assert_eq!(kind_of(parse_json(&[])), ErrorKind::UnexpectedEndOfInput);
    assert_eq!(kind_of(parse_chars(&[])), ErrorKind::UnexpectedEndOfInput);
}

#[test]
fn character_that_starts_no_value_is_refused() {
    assert_eq!(kind_of(parse("]")), ErrorKind::UnexpectedCharacter);
    assert_eq!(kind_of(parse("x")), ErrorKind::UnexpectedCharacter);
    assert_eq!(kind_of(parse("+1")), ErrorKind::UnexpectedCharacter);
    assert_eq!(kind_of(parse_json(&chars(" 1"))), ErrorKind::UnexpectedCharacter);
}

#[test]
fn what_follows_the_value_is_left_unread() {
    assert!(matches!(parse("1 2 3").unwrap(), JSONValue::Integer(1)));
    assert!(matches!(parse("null]").unwrap(), JSONValue::Null));
}

#[test]
fn from_str_is_parse() {
    let v: JSONValue = " [1, \"two\"]".parse().unwrap();
    assert_eq!(format!("{:?}", v), format!("{:?}", parse(" [1, \"two\"]").unwrap()));
    let e = "".parse::<JSONValue>().unwrap_err();
    assert_eq!(e.kind(), ErrorKind::UnexpectedEndOfInput);
}

#[test]
fn error_carries_kind_and_message() {
    let e = ParseJSONError::new(ErrorKind::MalformedNumber, "Extra decimal point in number");
    assert_eq!(e.kind(), ErrorKind::MalformedNumber);
    assert_eq!(e.message(), "Extra decimal point in number");
    let e = parse("1.2.3").unwrap_err();
    assert_eq!(e.message(), "Extra decimal point in number");
    let e = parse("").unwrap_err();
    assert_eq!(e.message(), "Empty input");
}

#[test]
fn chars_of_gives_each_character() {
    assert_eq!(chars_of("a\u{e9}\u{1F600}z"), vec!['a', '\u{e9}', '\u{1F600}', 'z']);
    assert_eq!(chars_of(""), Vec::<char>::new());
}

#[test]
fn non_ascii_text_in_strings() {
    match parse("\"caf\u{e9} \u{1F600}\"").unwrap() {
        JSONValue::String(s) => assert_eq!(s, "caf\u{e9} \u{1F600}"),
        other => panic!("not a string: {:?}", other),
    }
}

fn escape(text: &str) -> String {
    let mut out = String::new();
    for c in text.chars() {
        match c {
            '\n' => out.push_str("\\n"),
            '\t' => out.push_str("\\t"),
            '\r' => out.push_str("\\r"),
            '"' => out.push_str("\\\""),
            '\\' => out.push_str("\\\\"),
            other => out.push(other),
        }
    }
    out
}

#[test]
fn escaped_text_reads_back_as_itself() {
    let texts = [
        "",
        "plain",
        "line one\nline two\ttabbed\rreturned",
        "she said \"hi\" and left",
        "back\\slash and \\n stays two characters",
        "n t r \\ \" \n \t \r",
    ];
    for text in texts {
        let written = format!("\"{}\" and more", escape(text));
        let (v, n) = parse_string(&chars(&written)).unwrap();
        match v {
            JSONValue::String(s) => assert_eq!(s, text),
            other => panic!("not a string: {:?}", other),
        }
        assert_eq!(n, escape(text).chars().count() + 2);
    }
}

#[test]
fn count_stays_within_the_input() {
    let texts = [
        "true", "false", "null", "0", "12.5", ".", "\"s\"", "[]", "{}", "[1]", "[1, [2, 3]] ",
        "{\"a\": [1, {\"b\": \"c\"}]}", "  7", "\t\"x\\\"y\"  ", "[true,false,null]x",
    ];
    for text in texts {
        let input = chars(text);
        let (_, n) = parse_json_trim(&input).unwrap();
        assert!(1 <= n && n <= input.len(), "{}", text);
    }
}

#[test]
fn list_ends_at_its_closing_bracket() {
    for text in ["[1]", "[1 , 2 ]tail", "[[1], \"]\"] ]", "[\"a\",{\"b\":[2]}],"] {
        let input = chars(text);
        let (_, n) = parse_list(&input).unwrap();
        assert!(n >= 3);
        assert_eq!(input[n - 1], ']');
    }
    assert_eq!(parse_list(&chars("[1 , 2 ]tail")).unwrap().1, 8);
}

#[test]
fn object_ends_at_its_closing_brace() {
    for text in ["{\"a\":1}", "{\"a\" : 1 , \"b\" : \"}\" } }", "{\"a\":{\"b\":2}},"] {
        let input = chars(text);
        let (_, n) = parse_map(&input).unwrap();
        assert_eq!(input[n - 1], '}');
    }
    assert_eq!(parse_map(&chars("{\"a\":1}  ")).unwrap().1, 7);
}

#[test]
fn whitespace_before_delimiters_adds_to_the_count() {
    let (_, dense) = parse_list(&chars("[1,2]")).unwrap();
    let (_, loose) = parse_list(&chars("[1  ,2\n]")).unwrap();
    assert_eq!(dense, 5);
    assert_eq!(loose, 8);
    let (_, _, dense) = parse_map_entry(&chars("\"k\":1")).unwrap();
    let (_, _, loose) = parse_map_entry(&chars("\"k\" \t:1")).unwrap();
    assert_eq!(dense, 5);
    assert_eq!(loose, 7);
}

fn message_of(text: &str) -> String {
    parse(text).unwrap_err().message().to_string()
}

#[test]
fn each_failure_has_its_message() {
    assert_eq!(message_of(""), "Empty input");
    assert_eq!(message_of("?"), "Invalid input");
    assert_eq!(message_of("nil"), "Invalid literal");
    assert_eq!(message_of("\"abc"), "Unclosed string");
    assert_eq!(message_of("\"abc\\"), "Dangling escape");
    assert_eq!(message_of("1.2.3"), "Extra decimal point in number");
    assert_eq!(message_of("["), "Unclosed list");
    assert_eq!(message_of("[1"), "Unclosed list");
    assert_eq!(message_of("[1,"), "Unclosed list");
    assert_eq!(message_of("[1 2]"), "Improperly delimited list");
    assert_eq!(message_of("{"), "Unclosed map");
    assert_eq!(message_of("{\"a\":1"), "Unclosed map");
    assert_eq!(message_of("{\"a\":1,"), "Unclosed map");
    assert_eq!(message_of("{\"a\":1 \"b\":2}"), "Improperly delimited map");
    assert_eq!(message_of("{\"a\" 1}"), "Improperly delimited map entry");
    assert_eq!(message_of("{\"a\""), "Improperly delimited map entry");
    assert_eq!(message_of("{1: 2}"), "Map key is not string");
    assert_eq!(message_of("[{\"a\":tru}]"), "Invalid literal");
}
