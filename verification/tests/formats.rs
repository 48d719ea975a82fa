use gjson::format::{default_options, make_pretty, make_ugly, PrettyOptions};
use gjson::{get, get_bytes, parse, valid, Kind};

fn ugly(s: &str) -> String {
    String::from_utf8(make_ugly(s.as_bytes())).unwrap()
}

fn pretty(s: &str) -> String {
    String::from_utf8(make_pretty(s.as_bytes(), &default_options())).unwrap()
}

#[test]
fn ugly_drops_whitespace_outside_strings() {
    assert_eq!(ugly(" { \"a b\" : [ 1 , 2 ] ,\n\t\"c\":\"x \\\" y\" } "), "{\"a b\":[1,2],\"c\":\"x \\\" y\"}");
    assert_eq!(ugly(""), "");
    assert_eq!(ugly("\"unterminated  text"), "\"unterminated  text");
}

#[test]
fn pretty_indents_by_two_spaces() {
    assert_eq!(
        pretty(r#"{"a":1,"b":[1,2],"c":{},"d":[]}"#),
        "{\n  \"a\": 1,\n  \"b\": [\n    1,\n    2\n  ],\n  \"c\": {},\n  \"d\": []\n}\n"
    );
    assert_eq!(pretty("[[1]]"), "[\n  [\n    1\n  ]\n]\n");
    assert_eq!(pretty("true"), "true\n");
}

#[test]
fn pretty_takes_indent_and_prefix() {
    let opts = PrettyOptions { indent: b"\t".to_vec(), prefix: b"> ".to_vec(), sort_keys: false };
    let out = String::from_utf8(make_pretty(br#"{"a":[1]}"#, &opts)).unwrap();
    assert_eq!(out, "> {\n> \t\"a\": [\n> \t\t1\n> \t]\n> }\n");
    assert_eq!(
        get(r#"{"a":[1]}"#, r#"@pretty:{"indent":"    "}"#).json(),
        "{\n    \"a\": [\n        1\n    ]\n}\n"
    );
}

#[test]
fn pretty_sorts_keys_when_asked() {
    let json = r#"{"b": 1, "a": {"z": [ {"y":1,"x":2} ], "k": null}, "ab": "s", "a": 2}"#;
    assert_eq!(
        get(json, r#"@pretty:{"sortKeys":true}|@ugly"#).json(),
        r#"{"a":{"k":null,"z":[{"x":2,"y":1}]},"a":2,"ab":"s","b":1}"#
    );
    assert_eq!(
        get(r#"{"b":1,"a":2}"#, r#"@pretty:{"sortKeys":true,"indent":""}"#).json(),
        "{\n\"a\": 2,\n\"b\": 1\n}\n"
    );
    assert_eq!(get(r#"{"b":1,"a":2}"#, r#"@pretty:{"sortKeys":false}|@ugly"#).json(), r#"{"b":1,"a":2}"#);
}

#[test]
fn ugly_of_pretty_is_ugly() {
    let docs = vec![
        r#"{"a":1,"b":[1,2,{"c":"d e"}],"f":{}}"#,
        " [ 1 , [ ] , { } , \"x\\\"y\" ] ",
        "null",
        "{\"k\" : \"a , b : c\"}",
    ];
    for d in docs {
        assert_eq!(ugly(&pretty(d)), ugly(d));
    }
}

#[test]
fn validation() {
    assert_eq!(valid(r#"{"a":[1,2.5e3,-0.1,true,false,null,"x\n\u00e9"]}"#), true);
    assert_eq!(valid("  [ ]  "), true);
    assert_eq!(valid(""), false);
    assert_eq!(valid("[1,]"), false);
    assert_eq!(valid(r#"{"a":1,}"#), false);
    assert_eq!(valid("01"), false);
    assert_eq!(valid("1."), false);
    assert_eq!(valid("1e"), false);
    assert_eq!(valid(r#""\x""#), false);
    assert_eq!(valid(r#""\u12g4""#), false);
    assert_eq!(valid("\"a\tb\""), false);
    assert_eq!(valid("[1] 2"), false);
    assert_eq!(valid(r#"{"a" 1}"#), false);
    assert_eq!(valid(r#"{a:1}"#), false);
    assert_eq!(valid("tru"), false);
}

#[test]
fn valid_modifier() {
    assert_eq!(get(r#"{"a":[1,2]}"#, "@valid.a.#").i32(), 2);
    assert_eq!(get(r#"{"a":[1,2,]}"#, "@valid.a.#").is_present(), false);
    assert_eq!(get(r#"{"a":[1,2,]}"#, "a.#").i32(), 2);
    assert_eq!(get(r#"{"a":[1,2]}"#, "@nothing").is_present(), false);
    assert_eq!(get(r#"{"a":[1,2]}"#, "@this.a.1").i32(), 2);
}

#[test]
fn reverse_twice_gives_the_members_back() {
    let arr = "[1, \"two\", [3], {\"four\": 4}]";
    assert_eq!(get(arr, "@reverse").json(), r#"[{"four": 4},[3],"two",1]"#);
    assert_eq!(get(arr, "@reverse|@reverse").json(), r#"[1,"two",[3],{"four": 4}]"#);
    assert_eq!(get(arr, "@reverse|@reverse|@ugly").json(), get(arr, "@ugly").json());
    let obj = r#"{"a": 1, "b": [2], "c": "d"}"#;
    assert_eq!(get(obj, "@reverse").json(), r#"{"c":"d","b":[2],"a":1}"#);
    assert_eq!(get(obj, "@reverse|@reverse|@ugly").json(), get(obj, "@ugly").json());
    assert_eq!(get("12", "@reverse").json(), "12");
}

#[test]
fn counting_agrees_with_iterating() {
    let docs = vec!["[1,2,3]", "[]", "[[1,2],{\"a\":[3]},\"x\",null]", " [ true , false ] "];
    for d in docs {
        let count = get(d, "#").u64();
        let all = get(d, "#.@this");
        assert_eq!(count as usize, all.array().len());
    }
    let json = r#"{"p":[{"a":1},{"a":2},{"b":3}]}"#;
    assert_eq!(get(json, "p.#").u64() as usize, get(json, "p.#.@this").array().len());
}

#[test]
fn kinds_and_numbers() {
    assert_eq!(parse(" true ").kind(), Kind::True);
    assert_eq!(parse("false").kind(), Kind::False);
    assert_eq!(parse("null").kind(), Kind::Null);
    assert_eq!(parse("-1.5").kind(), Kind::Number);
    assert_eq!(parse("\"s\"").kind(), Kind::String);
    assert_eq!(parse("[1]").kind(), Kind::Array);
    assert_eq!(parse("{}").kind(), Kind::Object);
    assert_eq!(parse("?").kind(), Kind::NotPresent);
    assert_eq!(parse("").is_present(), false);
    assert_eq!(parse("12.9").u64(), 12);
    assert_eq!(parse("-12.9").i64(), -12);
    assert_eq!(parse("-12.9").u64(), 0);
    assert_eq!(parse("1e3").u64(), 1000);
    assert_eq!(parse("1.25e2").i32(), 125);
    assert_eq!(parse("125e-2").i32(), 1);
    assert_eq!(parse("0.9").i32(), 0);
    assert_eq!(parse("18446744073709551615").u64(), u64::MAX);
    assert_eq!(parse("18446744073709551616").u64(), u64::MAX);
    assert_eq!(parse("1e30").i64(), i64::MAX);
    assert_eq!(parse("-1e30").i64(), i64::MIN);
    assert_eq!(parse("-9223372036854775808").i64(), i64::MIN);
    assert_eq!(parse("3000000000").i32(), i32::MAX);
    assert_eq!(parse("-3000000000").i32(), i32::MIN);
    assert_eq!(parse("\"42\"").i32(), 42);
    assert_eq!(parse("true").i32(), 1);
    assert_eq!(parse("null").i32(), 0);
    assert_eq!(parse("1e2000000000").i32(), 0);
}

#[test]
fn strings_unescape() {
    assert_eq!(parse(r#""a\nb\t\"c\"\\\/""#).str(), "a\nb\t\"c\"\\/");
    assert_eq!(parse(r#""\u00e9\u30a4""#).str(), "\u{e9}\u{30a4}");
    assert_eq!(parse(r#""\ud83d\ude00""#).str(), "\u{1f600}");
    assert_eq!(parse(r#""\ud83d""#).str(), "\u{fffd}");
    assert_eq!(parse(r#""\b\f\r""#).str(), "\u{8}\u{c}\r");
    assert_eq!(parse("12").str(), "12");
    assert_eq!(parse("null").str(), "");
    assert_eq!(parse(r#"{"a":1}"#).str(), r#"{"a":1}"#);
}

#[test]
fn entries_of_objects_and_arrays() {
    let v = parse(r#"{"a": 1, "b": [true]}"#);
    let all: Vec<(String, String)> = v.entries().iter().map(|(k, x)| (k.str(), x.json())).collect();
    assert_eq!(all, vec![("a".to_string(), "1".to_string()), ("b".to_string(), "[true]".to_string())]);
    let v = parse(r#"["x", "y"]"#);
    let all: Vec<(String, String)> = v.entries().iter().map(|(k, x)| (k.json(), x.str())).collect();
    assert_eq!(all, vec![("0".to_string(), "x".to_string()), ("1".to_string(), "y".to_string())]);
    assert_eq!(parse("7").entries().len(), 0);
    assert_eq!(parse("7").array().len(), 1);
    assert_eq!(parse("").array().len(), 0);
}

#[test]
fn bytes_that_are_no_text_pass_through() {
    let json: &[u8] = b"{\"a\":\"\xff\xfe\",\"b\":2}";
    assert_eq!(get_bytes(json, b"a").raw(), b"\"\xff\xfe\"");
    assert_eq!(get_bytes(json, b"b").i32(), 2);
    assert_eq!(get_bytes(json, b"a").str(), "\u{fffd}\u{fffd}");
}

#[test]
fn truncated_input_gives_what_was_seen() {
    assert_eq!(get(r#"{"a":[1,2"#, "a.1").i32(), 2);
    assert_eq!(get(r#"{"a":"unfinished"#, "a").json(), "\"unfinished");
    assert_eq!(get(r#"{"a":}"#, "a").is_present(), false);
    assert_eq!(get(r#"{"a" 1}"#, "a").is_present(), false);
}
