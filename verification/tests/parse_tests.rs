use jsontree::error::Expected;
use jsontree::parser::JSON;
use jsontree::value::JSONValue;
use jsontree::{parse, render};

fn num(s: &str) -> JSONValue {
    JSONValue::Number(String::from(s))
}

fn txt(s: &str) -> JSONValue {
    JSONValue::String(String::from(s))
}

#[test]
fn empty_object_parses_to_empty_object() {
    let v = parse("{}").unwrap();
    assert_eq!(v, JSONValue::Object(Vec::new()));
}

#[test]
fn empty_array_parses_to_empty_array() {
    let v = parse("[]").unwrap();
    assert_eq!(v, JSONValue::Array(Vec::new()));
}

#[test]
fn empty_containers_render_to_two_characters() {
    assert_eq!(render(&parse("{}").unwrap()), "{}");
    assert_eq!(render(&parse("[]").unwrap()), "[]");
    assert_eq!(render(&parse("{ \n }").unwrap()), "{}");
}

#[test]
fn literals_parse() {
    assert_eq!(parse("true").unwrap(), JSONValue::Bool(true));
    assert_eq!(parse("false").unwrap(), JSONValue::Bool(false));
    assert_eq!(parse("null").unwrap(), JSONValue::Null);
}

#[test]
fn bad_literal_is_an_error_at_its_start() {
    let e = parse("tru").unwrap_err();
    assert_eq!(e.offset, 0);
    assert_eq!(e.found, Some('t'));
    assert_eq!(e.expected, Expected::Literal);
    assert!(parse("nul").is_err());
    assert!(parse("falsy").is_err());
}

#[test]
fn numbers_parse_and_keep_their_lexeme() {
    assert_eq!(parse("1").unwrap(), num("1"));
    assert_eq!(parse("2.5").unwrap(), num("2.5"));
    assert_eq!(parse("-0.5").unwrap(), num("-0.5"));
    assert_eq!(parse("2.5e10").unwrap(), num("2.5e10"));
    assert_eq!(parse("-3E-2").unwrap(), num("-3E-2"));
    assert_eq!(parse("1e+3").unwrap(), num("1e+3"));
    assert_eq!(parse("007").unwrap(), num("007"));
}

#[test]
fn malformed_numbers_are_rejected() {
    for bad in ["1.", "-", "1e", "1.e3", "1e+", "--1", "1.2.3"] {
        let e = parse(bad).unwrap_err();
        assert_eq!(e.expected, Expected::NumberLexeme, "input {:?}", bad);
        assert_eq!(e.offset, 0);
    }
    // a lone '.' is not even the start of a value
    let e = parse(".5").unwrap_err();
    assert_eq!(e.expected, Expected::Value);
}

#[test]
fn strings_parse_verbatim() {
    assert_eq!(parse("\"hello\"").unwrap(), txt("hello"));
    assert_eq!(parse("\" a b \"").unwrap(), txt(" a b "));
    assert_eq!(parse("\"\"").unwrap(), txt(""));
}

#[test]
fn unterminated_string_points_at_end_of_input() {
    let e = parse("\"abc").unwrap_err();
    assert_eq!(e.offset, 4);
    assert_eq!(e.found, None);
    assert_eq!(e.expected, Expected::ClosingQuote);
}

#[test]
fn empty_input_is_an_error_at_offset_zero() {
    let e = parse("").unwrap_err();
    assert_eq!(e.offset, 0);
    assert_eq!(e.found, None);
    assert_eq!(e.expected, Expected::Value);
}

#[test]
fn whitespace_only_input_fails_past_the_whitespace() {
    let e = parse("  \t\n").unwrap_err();
    assert_eq!(e.offset, 4);
    assert_eq!(e.found, None);
    assert_eq!(e.expected, Expected::Value);
}

#[test]
fn missing_value_in_object_points_at_the_brace() {
    // the failure points at the `}` and names it unexpected at a value start
    let e = parse("{\"a\": }").unwrap_err();
    assert_eq!(e.offset, 6);
    assert_eq!(e.found, Some('}'));
    assert_eq!(e.expected, Expected::Value);
}

#[test]
fn missing_colon_is_reported() {
    let e = parse("{\"a\" 1}").unwrap_err();
    assert_eq!(e.offset, 5);
    assert_eq!(e.found, Some('1'));
    assert_eq!(e.expected, Expected::Punct(':'));
}

#[test]
fn bad_separator_in_object_is_reported() {
    let e = parse("{\"a\": 1 ]").unwrap_err();
    assert_eq!(e.offset, 8);
    assert_eq!(e.found, Some(']'));
    assert_eq!(e.expected, Expected::CommaOrBrace);
}

#[test]
fn bad_separator_in_array_is_reported() {
    let e = parse("[1 2]").unwrap_err();
    assert_eq!(e.offset, 3);
    assert_eq!(e.found, Some('2'));
    assert_eq!(e.expected, Expected::CommaOrBracket);
}

#[test]
fn object_key_must_be_a_string() {
    let e = parse("{a: 1}").unwrap_err();
    assert_eq!(e.offset, 1);
    assert_eq!(e.found, Some('a'));
    assert_eq!(e.expected, Expected::Punct('"'));
}

#[test]
fn duplicate_keys_keep_position_and_take_last_value() {
    let v = parse("{\"a\":1,\"a\":2}").unwrap();
    assert_eq!(v, JSONValue::Object(vec![(String::from("a"), num("2"))]));
}

#[test]
fn duplicate_key_does_not_move_in_iteration_order() {
    let v = parse("{\"a\":1,\"b\":2,\"a\":3}").unwrap();
    assert_eq!(
        v,
        JSONValue::Object(vec![
            (String::from("a"), num("3")),
            (String::from("b"), num("2")),
        ])
    );
}

#[test]
fn nested_example_parses_to_the_expected_tree() {
    let v = parse("{\"x\": [1, 2.5, true, null, \"s\"]}").unwrap();
    let expected = JSONValue::Object(vec![(
        String::from("x"),
        JSONValue::Array(vec![num("1"), num("2.5"), JSONValue::Bool(true), JSONValue::Null, txt(
            "s",
        )]),
    )]);
    assert_eq!(v, expected);
}

#[test]
fn nested_example_renders_with_two_space_indentation() {
    let v = parse("{\"x\": [1, 2.5, true, null, \"s\"]}").unwrap();
    let expected = "{\n  \"x\": [\n    1,\n    2.5,\n    true,\n    null,\n    \"s\"\n  ]\n}";
    assert_eq!(render(&v), expected);
}

#[test]
fn whitespace_between_tokens_does_not_change_the_result() {
    let tight = parse("{\"x\":[1,2.5,true,null,\"s\"],\"y\":{}}").unwrap();
    let airy = parse(
        " \t{ \"x\" :\n [ 1 ,\t2.5 , true ,\n\n null , \"s\" ] ,\r\n \"y\" : { } }  ",
    )
    .unwrap();
    assert_eq!(tight, airy);
}

#[test]
fn whitespace_inside_strings_is_kept() {
    let a = parse("[\"a b\"]").unwrap();
    let b = parse("[ \"a b\" ]").unwrap();
    assert_eq!(a, b);
    assert_eq!(a, JSONValue::Array(vec![txt("a b")]));
}

#[test]
fn round_trip_reproduces_the_tree() {
    let text = "{\"name\":\"demo\",\"tags\":[1,2,3],\"deep\":{\"a\":[{},[]],\"b\":false}}";
    let v = parse(text).unwrap();
    let rendered = render(&v);
    let w = parse(&rendered).unwrap();
    assert_eq!(v, w);
}

#[test]
fn rendering_is_deterministic() {
    let v = parse("[1, {\"k\": \"v\"}, null]").unwrap();
    assert_eq!(render(&v), render(&v));
}

#[test]
fn rendering_twice_through_parse_is_stable() {
    let v = parse("{\"a\": [true, \"x\"], \"b\": 2e4}").unwrap();
    let once = render(&v);
    let twice = render(&parse(&once).unwrap());
    assert_eq!(once, twice);
}

#[test]
fn trailing_text_after_the_value_is_left_unread() {
    // the cursor interface parses one value and stops
    assert_eq!(parse("1 2").unwrap(), num("1"));
    assert_eq!(parse("[] []").unwrap(), JSONValue::Array(Vec::new()));
}

#[test]
fn cursor_new_skips_leading_whitespace() {
    let mut p = JSON::new("   null");
    assert_eq!(p.current(), 'n');
    assert_eq!(p.parse().unwrap(), JSONValue::Null);
}

#[test]
fn cursor_end_of_input_is_sticky() {
    let mut p = JSON::new("x");
    assert_eq!(p.current(), 'x');
    assert_eq!(p.next_tok(), '\0');
    assert_eq!(p.next_tok(), '\0');
    assert_eq!(p.current(), '\0');
}

#[test]
fn cursor_next_tok_skips_whitespace() {
    let mut p = JSON::new("a   b");
    assert_eq!(p.current(), 'a');
    assert_eq!(p.next_tok(), 'b');
    assert_eq!(p.next_tok(), '\0');
}

#[test]
fn expect_consumes_a_match_and_reports_a_mismatch() {
    let mut p = JSON::new(": 1");
    assert!(p.expect(':').is_ok());
    assert_eq!(p.current(), '1');
    let e = p.expect(',').unwrap_err();
    assert_eq!(e.offset, 2);
    assert_eq!(e.found, Some('1'));
    assert_eq!(e.expected, Expected::Punct(','));
}

#[test]
fn describe_names_what_was_expected() {
    assert_eq!(parse("").unwrap_err().describe(), "expected a JSON value");
    assert_eq!(parse("\"x").unwrap_err().describe(), "expected a closing '\"'");
    assert_eq!(parse("{\"a\" 1}").unwrap_err().describe(), "expected ':'");
    assert_eq!(
        parse("[1 2]").unwrap_err().describe(),
        "expected ',' or ']' after an array element"
    );
    assert_eq!(
        parse("{\"a\":1 2}").unwrap_err().describe(),
        "expected ',' or '}' after an object entry"
    );
    assert_eq!(parse("1..2").unwrap_err().describe(), "expected a well-formed number");
    assert_eq!(parse("nil").unwrap_err().describe(), "expected 'true', 'false' or 'null'");
}

#[test]
fn rendered_strings_are_quoted_verbatim() {
    let v = JSONValue::Array(vec![txt("a b"), num("1.5")]);
    assert_eq!(render(&v), "[\n  \"a b\",\n  1.5\n]");
}

#[test]
fn repr_indents_at_the_given_depth() {
    let v = parse("[1]").unwrap();
    assert_eq!(v.repr(0), "[\n  1\n]");
    assert_eq!(v.repr(1), "[\n    1\n  ]");
}

#[test]
fn form_feed_counts_as_whitespace() {
    assert_eq!(parse("\u{000C}null").unwrap(), JSONValue::Null);
}

#[test]
fn backslashes_are_kept_verbatim() {
    // no escape interpretation: the backslash is an ordinary character
    assert_eq!(parse("\"a\\b\"").unwrap(), txt("a\\b"));
}

#[test]
fn constructed_value_round_trips() {
    let v = JSONValue::Object(vec![
        (String::from("k"), JSONValue::Array(vec![num("-1e-2"), JSONValue::Bool(false)])),
        (String::from("empty"), JSONValue::Object(Vec::new())),
    ]);
    assert_eq!(parse(&render(&v)).unwrap(), v);
}

#[test]
fn deeply_nested_values_round_trip() {
    let text = "[[[[{\"k\":[null]}]]]]";
    let v = parse(text).unwrap();
    let w = parse(&render(&v)).unwrap();
    assert_eq!(v, w);
}
