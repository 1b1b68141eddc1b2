use lisp::json::{parse_json, Json};

fn key(k: &str, v: Json) -> (String, Json) {
    (k.to_string(), v)
}

#[test]
fn null() {
    assert_eq!(parse_json("null"), Ok(Json::Null));
}

#[test]
fn integer() {
    assert_eq!(parse_json("15"), Ok(Json::Num(15)));
}

#[test]
fn str() {
    assert_eq!(parse_json("\"foobar\""), Ok(Json::Str("foobar".to_string())));
}

#[test]
fn bool() {
    assert_eq!(parse_json("true"), Ok(Json::Bool(true)));
    assert_eq!(parse_json("false"), Ok(Json::Bool(false)));
}

#[test]
fn arr() {
    assert_eq!(
        parse_json(r#"[1,2,true,null,"hello"]"#),
        Ok(Json::Arr(vec![
            Json::Num(1),
            Json::Num(2),
            Json::Bool(true),
            Json::Null,
            Json::Str("hello".to_string()),
        ]))
    );
}

#[test]
fn arr_with_spaces() {
    assert_eq!(
        parse_json(r#"[ 1, 2, true, null, "hello" ]"#),
        Ok(Json::Arr(vec![
            Json::Num(1),
            Json::Num(2),
            Json::Bool(true),
            Json::Null,
            Json::Str("hello".to_string()),
        ]))
    );
}

#[test]
fn obj_simple() {
    let input = r#"{
            foo: "bar",
            asd: 123,
            bar: null,
            sad: true
        }"#;
    assert_eq!(
        parse_json(input),
        Ok(Json::obj(vec![
            key("foo", Json::Str("bar".to_string())),
            key("asd", Json::Num(123)),
            key("sad", Json::Bool(true)),
            key("bar", Json::Null),
        ]))
    );
}

#[test]
fn obj_simple_with_spaces() {
    let input = r#"{
            foo  : "bar"  ,
            asd:123,
        }"#;
    assert_eq!(
        parse_json(input),
        Ok(Json::obj(vec![key("foo", Json::Str("bar".to_string())), key("asd", Json::Num(123))]))
    );
}

#[test]
fn obj_nested() {
    let input = r#"{
            foo: {
                ok: false
            }
        }"#;
    assert_eq!(
        parse_json(input),
        Ok(Json::obj(vec![key("foo", Json::obj(vec![key("ok", Json::Bool(false))]))]))
    );
}

#[test]
fn obj_nested_arr() {
    let input = r#"{
            theobj: {
                foo: [ 1,2, 3],
                ok: false
            }
        }"#;
    assert_eq!(
        parse_json(input),
        Ok(Json::obj(vec![key(
            "theobj",
            Json::obj(vec![
                key("foo", Json::Arr(vec![Json::Num(1), Json::Num(2), Json::Num(3)])),
                key("ok", Json::Bool(false)),
            ])
        )]))
    );
}

#[test]
fn obj_complicated() {
    let input = r#"{
            foo: "bar",
            asd: 123,
            sad: true,
            theobj: {
                foo: [ 1,2, 3],
                ok: false
            }
        }"#;
    let res = parse_json(input);

    assert_eq!(
        res,
        Ok(Json::obj(vec![
            key("foo", Json::Str("bar".to_string())),
            key("asd", Json::Num(123)),
            key("sad", Json::Bool(true)),
            key(
                "theobj",
                Json::obj(vec![
                    key("foo", Json::Arr(vec![Json::Num(1), Json::Num(2), Json::Num(3)])),
                    key("ok", Json::Bool(false)),
                ])
            ),
        ]))
    );
}

#[test]
fn obj_keeps_last_of_repeated_keys() {
    assert_eq!(
        parse_json("{ a: 1, b: 2, a: 3 }"),
        Ok(Json::Obj(vec![key("a", Json::Num(3)), key("b", Json::Num(2))]))
    );
}

#[test]
fn json_errors() {
    assert!(parse_json("").is_err());
    assert!(parse_json("[ ]").is_err());
    assert!(parse_json("[1,]").is_err());
    assert!(parse_json("\"open").is_err());
    assert!(parse_json("99999999999").is_err());
    assert!(parse_json("-5").is_err());
    assert_eq!(parse_json("[]"), Ok(Json::Arr(vec![])));
    assert_eq!(parse_json("  7 trailing"), Ok(Json::Num(7)));
}
