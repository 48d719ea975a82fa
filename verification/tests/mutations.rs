use gjson::path::{parse_path, SegKind};
use gjson::{delete_path, exec_simple_fuzz, set_overwrite, valid, MutateError};

#[test]
fn delete_in_arrays() {
    assert_eq!(delete_path("[1, 2, 3]", "0").unwrap(), "[2, 3]");
    assert_eq!(delete_path("[1, 2, 3]", "1").unwrap(), "[1,3]");
    assert_eq!(delete_path("[1, 2, 3]", "2").unwrap(), "[1, 2]");
    assert_eq!(delete_path("[ 1 ]", "0").unwrap(), "[]");
    assert_eq!(delete_path(r#"{"a":[{"b":1},{"b":2}]}"#, "a.1.b").unwrap(), r#"{"a":[{"b":1},{}]}"#);
}

#[test]
fn delete_errors() {
    assert_eq!(delete_path(r#"{"a":1}"#, "b"), Err(MutateError::PathNotFound));
    assert_eq!(delete_path(r#"{"a":1}"#, "a.b"), Err(MutateError::TypeMismatch));
    assert_eq!(delete_path("[1]", "a"), Err(MutateError::TypeMismatch));
    assert_eq!(delete_path("[1]", "3"), Err(MutateError::PathNotFound));
    assert_eq!(delete_path(r#"{"a":1}"#, ""), Err(MutateError::PathInvalid));
    assert_eq!(delete_path(r#"{"a":1}"#, "a|b"), Err(MutateError::PathInvalid));
    assert_eq!(delete_path(r#"{"a":[1]}"#, "a.#"), Err(MutateError::PathInvalid));
    assert_eq!(delete_path(r#"{"a":[1]}"#, "@this"), Err(MutateError::PathInvalid));
    assert_eq!(delete_path(r#"{"a":1,}"#, "a"), Err(MutateError::JsonInvalid));
}

#[test]
fn overwrite_takes_json_as_it_is_and_text_as_a_string() {
    assert_eq!(set_overwrite(r#"{"a": 1, "b": 2}"#, "a", "[true]").unwrap(), r#"{"a": [true], "b": 2}"#);
    assert_eq!(set_overwrite(r#"{"a": 1}"#, "a", "hello \"you\"").unwrap(), r#"{"a": "hello \"you\""}"#);
    assert_eq!(set_overwrite(r#"{"a": 1}"#, "a", "line\nbreak\\").unwrap(), r#"{"a": "line\u000abreak\\"}"#);
    assert_eq!(set_overwrite("[1,[2,3]]", "1.0", "null").unwrap(), "[1,[null,3]]");
    assert_eq!(set_overwrite(r#"{"a": 1}"#, "b", "2"), Err(MutateError::PathNotFound));
    assert_eq!(set_overwrite(r#"{"a": 1"#, "a", "2"), Err(MutateError::JsonInvalid));
    assert_eq!(set_overwrite(r#"{"a": 1}"#, "a.b", "2"), Err(MutateError::TypeMismatch));
    assert_eq!(set_overwrite(r#"{"a": 1}"#, "*", "2"), Err(MutateError::PathInvalid));
}

#[test]
fn overwrite_drops_whitespace_round_a_valid_value() {
    assert_eq!(set_overwrite(r#"{"a": 1}"#, "a", "  [1, 2]\n").unwrap(), r#"{"a": [1, 2]}"#);
    assert_eq!(set_overwrite(r#"{"a": 1}"#, "a", " x ").unwrap(), r#"{"a": " x "}"#);
    assert_eq!(set_overwrite(r#"{"a": 1}"#, "a", "").unwrap(), r#"{"a": ""}"#);
    assert_eq!(set_overwrite(r#"{"a": {"b": [1, {"c": 2}]}}"#, "a.b.1.c", "\u{1}").unwrap(), r#"{"a": {"b": [1, {"c": "\u0001"}]}}"#);
}

#[test]
fn overwrite_keeps_the_text_valid() {
    let docs = vec![r#"{"a":{"b":[1,2,{"c":"d"}]},"e":null}"#, r#"  { "a" : { "b" : [ 1 , 2 , { "c" : "d" } ] } } "#];
    let paths = vec!["a", "a.b", "a.b.0", "a.b.2", "a.b.2.c"];
    let values = vec!["1", "\"s\"", "{\"x\":[]}", "not json", "", "tru"];
    for d in &docs {
        for p in &paths {
            for v in &values {
                let out = set_overwrite(d, p, v).unwrap();
                assert_eq!(valid(&out), true);
            }
        }
    }
}

#[test]
fn set_creates_what_is_missing() {
    assert_eq!(gjson::set(r#"{"a":1}"#, "a", "2").unwrap(), r#"{"a":2}"#);
    assert_eq!(gjson::set(r#"{"a":1}"#, "b", "2").unwrap(), r#"{"a":1,"b":2}"#);
    assert_eq!(gjson::set("{}", "b", "x").unwrap(), r#"{"b":"x"}"#);
    assert_eq!(gjson::set(r#"{"a":1}"#, "b.c.d", "true").unwrap(), r#"{"a":1,"b":{"c":{"d":true}}}"#);
    assert_eq!(gjson::set(r#"{"a":[1]}"#, "a.1", "2").unwrap(), r#"{"a":[1,2]}"#);
    assert_eq!(gjson::set(r#"{"a":[1]}"#, "a.3", "2").unwrap(), r#"{"a":[1,null,null,2]}"#);
    assert_eq!(gjson::set(r#"{"a":[]}"#, "a.0.k", "2").unwrap(), r#"{"a":[{"k":2}]}"#);
    assert_eq!(gjson::set("{}", "a.2", "0").unwrap(), r#"{"a":[null,null,0]}"#);
    assert_eq!(gjson::set("{}", r#"a\.b"#, "0").unwrap(), r#"{"a.b":0}"#);
    assert_eq!(gjson::set(r#"{"a":1}"#, "a.b", "2"), Err(MutateError::TypeMismatch));
    assert_eq!(gjson::set(r#"{"a":[1]}"#, "a.k", "2"), Err(MutateError::TypeMismatch));
    assert_eq!(gjson::set(r#"{"a":1}"#, "b.#", "2"), Err(MutateError::PathInvalid));
    assert_eq!(gjson::set(r#"{"a":1"#, "b", "2"), Err(MutateError::JsonInvalid));
}

#[test]
fn path_segments() {
    let segs = parse_path(br#"a.b\.c.1.x*|#.#(y=1)#.@m:{"k":[1.5]}.[p,q]"#);
    let kinds: Vec<SegKind> = segs.iter().map(|s| s.kind).collect();
    assert_eq!(
        kinds,
        vec![
            SegKind::Key,
            SegKind::Key,
            SegKind::Index,
            SegKind::Wildcard,
            SegKind::ArrayAll,
            SegKind::QueryAll,
            SegKind::Modifier,
            SegKind::ArrayForm,
        ]
    );
    assert_eq!((segs[1].lo, segs[1].hi, segs[1].next), (2, 6, 7));
    assert_eq!(segs[3].piped, true);
    assert_eq!((segs[6].lo, segs[6].mid, segs[6].hi), (22, 24, 36));
    assert_eq!(parse_path(b"").len(), 0);
    assert_eq!(parse_path(b"#")[0].kind, SegKind::ArrayLen);
    assert_eq!(parse_path(b"#(a)")[0].kind, SegKind::Query);
    assert_eq!(parse_path(b"{a,b}")[0].kind, SegKind::ObjectForm);
}

#[test]
fn fuzz_on_text_finds_text() {
    assert_eq!(exec_simple_fuzz(b"friends.#.first"), true);
    assert_eq!(exec_simple_fuzz("name.\u{30a4}".as_bytes()), true);
    assert_eq!(exec_simple_fuzz(b"{\"a\":\"\xc3\xa9\"}"), true);
    assert_eq!(exec_simple_fuzz(b"\xff\xfe"), true);
    assert_eq!(exec_simple_fuzz(b"@pretty:{\"indent\":\"\\uD800\"}"), true);
}
