use ajson::value::Value;
use ajson::{get, parse};

const PEOPLE: &str = r#"
{
    "name": {"first": "Tom", "last": "Anderson"},
    "age":37,
    "children": ["Sara","Alex","Jack"],
    "fav.movie": "Deer Hunter",
    "friends": [
        {"first": "Dale", "last": "Murphy", "age": 44, "nets": ["ig", "fb", "tw"]},
        {"first": "Roger", "last": "Craig", "age": 68, "nets": ["fb", "tw"]},
        {"first": "Jane", "last": "Murphy", "age": 47, "nets": ["ig", "tw"]}
    ]
}
"#;

fn text(v: &Value) -> String {
    match v {
        Value::String(s) => s.clone(),
        Value::Array(s) | Value::Object(s) => s.clone(),
        Value::Number(n) => n.as_str().to_string(),
        Value::Usize(u) => u.to_string(),
        Value::Boolean(b) => b.to_string(),
        Value::Null => "null".to_string(),
    }
}

fn lookup(path: &str) -> String {
    text(&get(PEOPLE, path).unwrap().unwrap())
}

#[test]
fn basic_paths() {
    assert_eq!(lookup("name.last"), "Anderson");
    assert_eq!(lookup("age"), "37");
    assert_eq!(lookup("children"), r#"["Sara","Alex","Jack"]"#);
    assert_eq!(lookup("children.#"), "3");
    assert_eq!(lookup("children.1"), "Alex");
    assert_eq!(lookup("child*.2"), "Jack");
    assert_eq!(lookup("c?ildren.0"), "Sara");
    assert_eq!(lookup("fav\\.movie"), "Deer Hunter");
    assert_eq!(lookup("friends.#.first"), r#"["Dale","Roger","Jane"]"#);
    assert_eq!(lookup("friends.1.last"), "Craig");
}

#[test]
fn query_paths() {
    assert_eq!(lookup(r#"friends.#(last=="Murphy").first"#), "Dale");
    assert_eq!(lookup(r#"friends.#(last=="Murphy")#.first"#), r#"["Dale","Jane"]"#);
    assert_eq!(lookup("friends.#(age>45)#.last"), r#"["Craig","Murphy"]"#);
    assert_eq!(lookup(r#"friends.#(first%"D*").last"#), "Murphy");
    assert_eq!(lookup(r#"friends.#(nets.#(=="fb"))#.first"#), r#"["Dale","Roger"]"#);
}

#[test]
fn selector_paths() {
    assert_eq!(lookup("[name.first,age,children.0]"), r#"["Tom",37,"Sara"]"#);
    assert_eq!(
        lookup(r#"{name.first,age,"murphys":friends.#(last="Murphy")#.first}"#),
        r#"{"first":"Tom","age":37,"murphys":["Dale","Jane"]}"#
    );
}

#[test]
fn get_doc_examples() {
    let v = get(r#"{"name": "ajson"}"#, "name").unwrap().unwrap();
    assert_eq!(v.as_str(), Some("ajson"));
    let v = get(r#"someinvalidstring{"name": "ajson"}"#, "name").unwrap().unwrap();
    assert_eq!(v.as_str(), Some("ajson"));
    assert!(get("someinvalidstring", "name").unwrap().is_none());
}

#[test]
fn parse_doc_examples() {
    assert!(parse(r#"{"name": "ajson"}"#).unwrap().unwrap().is_object());
    assert!(parse(r#"{"name": "ajson""#).unwrap().unwrap().is_object());
    assert!(parse(r#"null,"string", 2"#).unwrap().unwrap().is_null());
}

#[test]
fn value_get_doc_example() {
    let v = Value::Array("[1,2,3]".to_string());
    let first = v.get("0").unwrap().unwrap();
    assert_eq!(first.as_i64(), Some(1));
}
