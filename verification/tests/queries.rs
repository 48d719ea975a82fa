use gjson::{delete_path, get, set_overwrite, valid};

const FRIENDS: &str = r#"
{
  "name": {"first": "Tom", "last": "Anderson"},
  "age":37,
  "children": ["Sara","Alex","Jack"],
  "fav.movie": "Deer Hunter",
  "friends": [
    {"first": "Dale", "last": "Murphy", "age": 44, "nets": ["ig", "fb", "tw"]},
    {"first": "Roger", "last": "Craig", "age": 68, "nets": ["fb", "tw"]},
    {"first": "Jane", "last": "Murphy", "age": 47, "nets": ["ig", "tw"]}
  ]
}
"#;

#[test]
fn test_delete_path() {
    // Only key in object
    let json = r#"{"object":{"subobject": {"field":" value"}}}"#;
    let want = r#"{"object":{"subobject": {}}}"#;
    let got = delete_path(json, "object.subobject.field").unwrap();
    assert_eq!(want, got);

    // First key in object
    let json = r#"{"object":{"subobject": {"field":" value", "some": "other"}}}"#;
    let want = r#"{"object":{"subobject": {"some": "other"}}}"#;
    let got = delete_path(json, "object.subobject.field").unwrap();
    assert_eq!(want, got);

    // Key in middle of object
    let json = r#"{"object":{"subobject": {"field": "value", "some": "other", "another": "val"}}}"#;
    let want = r#"{"object":{"subobject": {"field": "value","another": "val"}}}"#;
    let got = delete_path(json, "object.subobject.some").unwrap();
    assert_eq!(want, got);

    // Last key in object
    let json = r#"{"object":{"subobject": {"field": "value", "some": "other", "another": "val"}}}"#;
    let want = r#"{"object":{"subobject": {"field": "value", "some": "other"}}}"#;
    let got = delete_path(json, "object.subobject.another").unwrap();
    assert_eq!(want, got);
}

#[test]
fn test_set_overwrite() {
    let json = r#"{
    "boolean_t": true,
    "boolean_f": false,
    "object": {
        "ipv4_address": "127.0.0.1",
        "ipv6_address": "2001:0db8:85a3:0000:0000:8a2e:0370:7334",
        "mac_address": "00-B0-D0-63-C2-26",
        "uuid_dash": "550e8400-e29b-41d4-a716-446655440000",
        "uuid_colon": "550e8400:e29b:41d4:a716:446655440000",
        "uuid_stripped": "550e8400e29b41d4a716446655440000",
        "number_as_string": "1234",
        "field": "value",
        "empty_string": "",
        "null_field": null,
        "empty_array": []
    },
    "array": [
        "value1",
        "value2"
    ],
    "number_int": 100,
    "number_float": 100.1,
    "timestamp_unix_str": "1614556800",
    "timestamp_unix_num": 1614556800,
    "timestamp_unix_nano_str": "1614556800000000000",
    "timestamp_unix_nano_num": 1614556800000000000,
    "timestamp_rfc3339": "2023-06-29T12:34:56Z"
}"#;

    let overwritten = set_overwrite(json, "object.ipv4_address", "1.23").unwrap();
    assert_eq!(valid(&overwritten), true);
}

#[test]
fn jsonlines() {
    let json = r#"
        {"a": 1 }
        {"a": 2 }
        true
        false
        4
    "#;
    assert_eq!(get(json, "..#").i32(), 5);
    assert_eq!(get(json, "..0.a").i32(), 1);
    assert_eq!(get(json, "..1.a").i32(), 2);
    assert_eq!(
        get(json, "..#.@this|@ugly").json(),
        r#"[{"a":1},{"a":2},true,false,4]"#
    );
    assert_eq!(get(json, "..#.@this|@join|@ugly").json(), r#"{"a":2}"#);
}

#[test]
fn array_value() {
    const PROGRAMMERS: &str = r#"
    {
        "programmers": [
          {
            "firstName": "Janet",
            "lastName": "McLaughlin",
          }, {
            "firstName": "Elliotte",
            "lastName": "Hunter",
          }, {
            "firstName": "Jason",
            "lastName": "Harold",
          }
        ]
      }
    "#;
    let mut res = String::new();
    let value = get(PROGRAMMERS, "programmers.#.lastName");
    for name in value.array() {
        res.extend(format!("{}\n", name.str()).chars());
    }
    assert_eq!(res, "McLaughlin\nHunter\nHarold\n");
}

#[test]
fn escaped_query_string() {
    const JSON: &str = r#"
    {
        "name": {"first": "Tom", "last": "Anderson"},
        "age":37,
        "children": ["Sara","Alex","Jack"],
        "fav.movie": "Deer Hunter",
        "friends": [
          {"first": "Dale", "last": "Mur\"phy", "age": 44, "nets": ["ig", "fb", "tw"]},
          {"first": "Roger", "last": "Craig", "age": 68, "nets": ["fb", "tw"]},
          {"first": "Jane", "last": "Murphy", "age": 47, "nets": ["ig", "tw"]}
        ]
      }
    }
    "#;
    assert_eq!(get(JSON, r#"friends.#(last="Mur\"phy").age"#).i32(), 44);
    assert_eq!(get(JSON, r#"friends.#(last="Murphy").age"#).i32(), 47);
}

#[test]
fn bool_convert_query() {
    const JSON: &str = r#"
    {
		"vals": [
			{ "a": 1, "b": true },
			{ "a": 2, "b": true },
			{ "a": 3, "b": false },
			{ "a": 4, "b": "0" },
			{ "a": 5, "b": 0 },
			{ "a": 6, "b": "1" },
			{ "a": 7, "b": 1 },
			{ "a": 8, "b": "true" },
			{ "a": 9, "b": false },
			{ "a": 10, "b": null },
			{ "a": 11 }
		]
	}
    "#;

    assert_eq!(get(JSON, r#"vals.#(b==~true)#.a"#).json(), "[1,2,6,7,8]");
}

#[test]
fn bool_convert_query_false() {
    const JSON: &str = r#"{"vals": [
        { "a": 1, "b": true }, { "a": 3, "b": false }, { "a": 4, "b": "0" },
        { "a": 5, "b": 0 }, { "a": 6, "b": "1" }, { "a": 10, "b": null }, { "a": 11 }
    ]}"#;
    assert_eq!(get(JSON, r#"vals.#(b==~false)#.a"#).json(), "[3,4,5,10,11]");
}

#[test]
fn modifiers_join_and_flatten() {
    let res = get(
        r#"{"user":[
        {"first":"tom","age":72},
        {"last":"anderson","age":68}
    ]}"#,
        "user.@join.@ugly",
    );
    assert_eq!(res.json(), r#"{"first":"tom","age":68,"last":"anderson"}"#);
    let res = get(
        r#"{"user":[
        {"first":"tom","age":72},
        {"last":"anderson","age":68}
    ]}"#,
        r#"user.@join:{"preserve":true}.@ugly"#,
    );
    assert_eq!(
        res.json(),
        r#"{"first":"tom","age":72,"last":"anderson","age":68}"#
    );
    assert_eq!(
        get("[1,[2],[3,4],[5,[6,7]]]", "@flatten").json(),
        "[1,2,3,4,5,[6,7]]"
    );
    assert_eq!(
        get("[1,[2],[3,4],[5,[6,7]]]", r#"@flatten:{"deep":true}"#).json(),
        "[1,2,3,4,5,6,7]"
    );
}

#[test]
fn nested_query_with_escaped_path() {
    let json = r#"{
        "friends": [
            {"first": "Dale", "last": "Murphy", "age": 44, "nets": [{"net":"ig"}, "fb", "tw"]},
            {"first": "Roger", "last": "Craig", "age": 68, "nets": ["fb", "tw"]},
            {"first": "Jane", "last": "Murphy", "age": 47, "nets": ["ig", "tw"]}
            ]
        }
        "#;
    assert_eq!(
        get(json, r#"frie\nds.#(ne\ts.#(ne\t=ig)).@ugly"#).json(),
        r#"{"first":"Dale","last":"Murphy","age":44,"nets":[{"net":"ig"},"fb","tw"]}"#
    );
}

#[test]
fn keys_and_indexes() {
    assert_eq!(get(FRIENDS, "name.last").str(), "Anderson");
    assert_eq!(get(FRIENDS, "age").i32(), 37);
    assert_eq!(get(FRIENDS, "children.1").str(), "Alex");
    assert_eq!(get(FRIENDS, "children.#").u64(), 3);
    assert_eq!(get(FRIENDS, r#"fav\.movie"#).str(), "Deer Hunter");
    assert_eq!(get(FRIENDS, "friends.1.last").str(), "Craig");
    assert_eq!(get(FRIENDS, "children.7").is_present(), false);
    assert_eq!(get(FRIENDS, "nothing").is_present(), false);
    assert_eq!(get(FRIENDS, "age.x").is_present(), false);
}

#[test]
fn wildcards() {
    assert_eq!(get(FRIENDS, "child*.2").str(), "Jack");
    assert_eq!(get(FRIENDS, "c?ildren.0").str(), "Sara");
    assert_eq!(get(FRIENDS, "fav*").str(), "Deer Hunter");
    assert_eq!(get(FRIENDS, "zz*").is_present(), false);
}

#[test]
fn every_element() {
    assert_eq!(get(FRIENDS, "friends.#.first").json(), r#"["Dale","Roger","Jane"]"#);
    assert_eq!(get(FRIENDS, "friends.#.age").json(), "[44,68,47]");
    assert_eq!(get(FRIENDS, "friends.#.nets.#").json(), "[3,2,2]");
    assert_eq!(get(FRIENDS, "friends.#.missing").json(), "[]");
}

#[test]
fn queries_compare() {
    assert_eq!(get(FRIENDS, r#"friends.#(last=="Murphy").first"#).str(), "Dale");
    assert_eq!(get(FRIENDS, r#"friends.#(last=="Murphy")#.first"#).json(), r#"["Dale","Jane"]"#);
    assert_eq!(get(FRIENDS, "friends.#(age>45)#.last").json(), r#"["Craig","Murphy"]"#);
    assert_eq!(get(FRIENDS, "friends.#(age>=47)#.first").json(), r#"["Roger","Jane"]"#);
    assert_eq!(get(FRIENDS, "friends.#(age<47)#.first").json(), r#"["Dale"]"#);
    assert_eq!(get(FRIENDS, "friends.#(age<=47)#.first").json(), r#"["Dale","Jane"]"#);
    assert_eq!(get(FRIENDS, "friends.#(age!=68)#.first").json(), r#"["Dale","Jane"]"#);
    assert_eq!(get(FRIENDS, r#"friends.#(first%"D*").last"#).str(), "Murphy");
    assert_eq!(get(FRIENDS, r#"friends.#(first!%"D*")#.first"#).json(), r#"["Roger","Jane"]"#);
    assert_eq!(get(FRIENDS, r#"friends.#(nets.#(=="fb"))#.first"#).json(), r#"["Dale","Roger"]"#);
    assert_eq!(get(FRIENDS, "friends.#(age=44.0).first").str(), "Dale");
    assert_eq!(get(FRIENDS, "friends.#(age=4.4e1).first").str(), "Dale");
    assert_eq!(get(FRIENDS, "friends.#(age=abc).first").is_present(), false);
    assert_eq!(get(FRIENDS, "children.#(=Alex)").json(), r#""Alex""#);
}

#[test]
fn pipes_restart_with_the_result() {
    assert_eq!(get(FRIENDS, "friends.#.first|1").str(), "Roger");
    assert_eq!(get(FRIENDS, "friends.#.first|#").i32(), 3);
    assert_eq!(get(FRIENDS, "children|@reverse").json(), r#"["Jack","Alex","Sara"]"#);
    let left = get(FRIENDS, "friends.0");
    assert_eq!(get(FRIENDS, "friends.0|nets.1").json(), left.get("nets.1").json());
    assert_eq!(get(FRIENDS, "friends.0|nets.1").str(), "fb");
}

#[test]
fn pipe_is_a_fresh_lookup_in_what_was_found() {
    let paths = vec![
        ("friends.#.first", "1"),
        ("friends.1", "nets.0"),
        ("friends.#(age>45)#", "#"),
        ("children.@reverse", "0"),
        ("[name,age]", "0.first"),
        ("friends.#.nets", "@flatten|#"),
    ];
    for (left, right) in paths {
        let whole = format!("{}|{}", left, right);
        let first = get(FRIENDS, left).json();
        assert_eq!(get(FRIENDS, &whole).json(), get(&first, right).json());
    }
}

#[test]
fn counting_at_the_end_of_a_path() {
    assert_eq!(get(FRIENDS, "friends.#").u64() as usize, get(FRIENDS, "friends.#.@this").array().len());
    assert_eq!(get(FRIENDS, "friends.0.nets.#").u64() as usize, get(FRIENDS, "friends.0.nets.#.@this").array().len());
    assert_eq!(get(FRIENDS, "friends.#(age=68).nets.#").json(), "2");
}

#[test]
fn multipaths() {
    assert_eq!(get(FRIENDS, "[age,name.first]").json(), r#"[37,"Tom"]"#);
    assert_eq!(get(FRIENDS, "[age,nothing]").json(), "[37,null]");
    assert_eq!(get(FRIENDS, "{age,name.first}").json(), r#"{"age":37,"first":"Tom"}"#);
    assert_eq!(get(FRIENDS, "{age,nothing}").json(), r#"{"age":37}"#);
    assert_eq!(
        get(FRIENDS, r#"{years:age,"who":name.first,[age,age],children.@reverse}"#).json(),
        r#"{"years":37,"who":"Tom","_":[37,37],"@reverse":["Jack","Alex","Sara"]}"#
    );
    assert_eq!(get(FRIENDS, "[[age,age],children.#].1").i32(), 3);
    assert_eq!(get(FRIENDS, "friends.#.{first,age}|0|@ugly").json(), r#"{"first":"Dale","age":44}"#);
}

#[test]
fn range_fidelity() {
    let paths = vec![
        "name.first",
        "age",
        "name",
        "children",
        "friends.1.nets.0",
        "friends.#(age=47)",
        "children|2",
    ];
    for p in paths {
        let field = get(FRIENDS, p);
        assert_eq!(field.is_present(), true);
        let begin = field.index().unwrap();
        let end = begin + field.json().len();
        assert_eq!(FRIENDS[begin..end], *field.json());
    }
    assert_eq!(get(FRIENDS, "children.#").index(), None);
    assert_eq!(get(FRIENDS, "children.@ugly").index(), None);
}
