use ajson::element::{compound_u8, string_u8};
use ajson::path::parser::parse_query;
use ajson::path::query::QueryValue;
use ajson::path::sub_selector::parse_selectors;
use ajson::path_v2::{self, Group};
use ajson::value::Value;
use ajson::{get, parse};

const BASIC_JSON: &str = r#"
{"age":100, "name":{"here":"B\\\"R"},
	"noop":{"what is a wren?":"a bird"},
	"happy":true,"immortal":false,
	"items":[1,2,3,{"tags":[1,2,3],"points":[[1,2],[3,4]]},4,5,6,7],
	"arr":["1",2,"3",{"hello":"world"},"4",5],
	"vals":[1,2,3,{"sadf":sdx"asdf"}],"name":{"first":"tom","last":null},
	"created":"2014-05-16T08:28:06.989Z",
	"loggy":{
		"programmers": [
    	    {
    	        "firstName": "Brett",
    	        "lastName": "McLaughlin",
    	        "email": "aaaa",
				"tag": "good"
    	    },
    	    {
    	        "firstName": "Jason",
    	        "lastName": "Hunter",
    	        "email": "bbbb",
				"tag": "bad"
    	    },
    	    {
    	        "firstName": "Elliotte",
    	        "lastName": "Harold",
    	        "email": "cccc",
				"tag":, "good"
    	    },
			{
				"firstName": 1002.3,
				"age": 101
			}
    	]
	},
	"lastly":{"yay":"final"}
}
"#;

fn root(json: &str) -> Value {
    parse(json).unwrap().unwrap()
}

fn at(v: &Value, path: &str) -> Value {
    v.get(path).unwrap().unwrap()
}

fn shown(v: &Value) -> String {
    v.to_display_string()
}

fn field<'a>(entries: &'a [(String, Value)], key: &str) -> &'a Value {
    &entries.iter().find(|(k, _)| k == key).unwrap().1
}

fn object_len(v: &Value) -> usize {
    v.as_object().map_or(0, |m| m.len())
}

fn array_len(v: &Value) -> usize {
    v.as_vec().map_or(0, |a| a.len())
}

#[test]
fn test_string() {
    assert_eq!(
        string_u8(r#""hello": "tom""#.as_bytes()),
        Ok((r#""hello""#.as_bytes(), r#": "tom""#.as_bytes(), false))
    );
    assert_eq!(
        string_u8(r#""hello"#.as_bytes()),
        Ok((r#""hello"#.as_bytes(), r#""#.as_bytes(), false))
    );
}

#[test]
fn test_compound() {
    let json = r#"{"1":"2", "name": "jack"}xxxx"#;
    let r = compound_u8(json.as_bytes()).unwrap();
    assert_eq!(r.0, r#"{"1":"2", "name": "jack"}"#.as_bytes());
    assert_eq!(r.1, "xxxx".as_bytes());
}

#[test]
fn parser_test_fn_parse_query() {
    let (q, _) = parse_query("first)".as_bytes()).unwrap();
    assert_eq!(q.path, "first)".as_bytes());
    assert!(q.op.is_none());
    assert!(!q.all);

    let (q, _) = parse_query("first)#".as_bytes()).unwrap();
    assert_eq!(q.path, "first)".as_bytes());
    assert!(q.all);

    let (q, _) = parse_query(r#"first="name")"#.as_bytes()).unwrap();
    assert_eq!(q.path, "first".as_bytes());
    assert_eq!(q.op, Some("=".as_bytes()));
    assert!(matches!(q.value, Some(QueryValue::String(v)) if v == "name".as_bytes()));

    let (q, _) = parse_query(r#"nets.#(=="ig"))"#.as_bytes()).unwrap();
    assert_eq!(q.path, r#"nets.#(=="ig"))"#.as_bytes());
    assert!(q.op.is_none());

    let (q, _) = parse_query(r#"nets.#(=="ig"))#"#.as_bytes()).unwrap();
    assert_eq!(q.path, r#"nets.#(=="ig"))"#.as_bytes());
    assert!(q.all);

    let (q, _) = parse_query(r#"=="ig")"#.as_bytes()).unwrap();
    assert_eq!(q.path, "".as_bytes());
    assert_eq!(q.op, Some("==".as_bytes()));
    assert!(matches!(q.value, Some(QueryValue::String(v)) if v == "ig".as_bytes()));

    let (q, _) = parse_query(r#"first=)"#.as_bytes()).unwrap();
    assert_eq!(q.path, "first".as_bytes());
    assert_eq!(q.op, Some("=".as_bytes()));

    let (q, _) = parse_query(r#"sub_item>7)#.title"#.as_bytes()).unwrap();
    assert_eq!(q.path, "sub_item".as_bytes());
    assert_eq!(q.op, Some(">".as_bytes()));
    assert!(matches!(q.value, Some(QueryValue::Number(v)) if v == "7".as_bytes()));
    assert!(q.all);
}

#[test]
fn test_parse_selectors_from_utf8() {
    let path = r#"{name.first,age,murphys:friends.#(last="Murphy")#.first}"#;
    let (sels, length, ok) = parse_selectors(path.as_bytes());
    assert!(ok);
    assert_eq!(length, path.len() - 1);
    assert_eq!(sels.len(), 3);
    assert_eq!(sels[0].name, "first".as_bytes());
    assert_eq!(sels[0].path, "name.first".as_bytes());
    assert_eq!(sels[1].name, "age".as_bytes());
    assert_eq!(sels[1].path, "age".as_bytes());
    assert_eq!(sels[2].name, "murphys".as_bytes());
    assert_eq!(sels[2].path, r#"friends.#(last="Murphy")#.first"#.as_bytes());

    let path = r#"[name,a]"#;
    let (sels, length, ok) = parse_selectors(path.as_bytes());
    assert!(ok);
    assert_eq!(length, 7);
    assert_eq!(sels.len(), 2);
    assert_eq!(sels[0].path, "name".as_bytes());
    assert_eq!(sels[1].path, "a".as_bytes());
}

#[test]
fn test_path_v2_group() {
    let mut group = Group::new("".as_bytes());
    for (i, s) in vec![
        "widget.window.name",
        "widget.image.hOffset",
        "widget.text.onMouseUp",
        "widget.debug",
        "widget.menu.#(sub_item>7)#.title",
        "widget.menu.#(nets.#(==7))#.title",
        "overflow",
    ]
    .iter()
    .enumerate()
    {
        let path = path_v2::parse(s.as_bytes()).unwrap();
        group.add(i, path);
    }
    assert!(group.has_sub_path());
    assert_eq!(group.sub_count, 2);
    let subs = group.m.as_ref().unwrap();
    assert_eq!(subs.len(), 2);
    assert_eq!(subs[0].raw, "widget".as_bytes());
    assert_eq!(subs[0].sub_count, 5);
    assert_eq!(subs[1].raw, "overflow".as_bytes());
    assert!(subs[1].path_end);
    assert_eq!(subs[1].index, 6);
}

#[test]
fn test_basic_2() {
    let r = root(BASIC_JSON);
    let mut mtok = at(&r, r#"loggy.programmers.#[age==101].firstName"#);
    assert_eq!(shown(&mtok), "1002.3");
    mtok = at(&r, r#"loggy.programmers.#[firstName != "Brett"].firstName"#);
    assert_eq!(mtok.as_str(), Some("Jason"));

    mtok = at(&r, r#"loggy.programmers.#[firstName % "Bre*"].email"#);
    assert_eq!(mtok.as_str(), Some("aaaa"));

    mtok = at(&r, r#"loggy.programmers.#[firstName !% "Bre*"].email"#);
    assert_eq!(mtok.as_str(), Some("bbbb"));

    mtok = at(&r, r#"loggy.programmers.#[firstName == "Brett"].email"#);
    assert_eq!(mtok.as_str(), Some("aaaa"));

    mtok = at(&r, "loggy");
    assert!(mtok.is_object());
    let loggy = mtok.as_object().unwrap();
    assert_eq!(loggy.len(), 1);

    let programmers = field(&loggy, "programmers");
    let second = programmers.as_vec().unwrap()[1].as_object().unwrap();
    assert_eq!(field(&second, "firstName").as_str(), Some("Jason"));
}

#[test]
fn test_basic_3() {
    let t = at(&at(&at(&root(BASIC_JSON), "loggy.programmers"), "1"), "firstName");
    assert_eq!(t.as_str(), Some("Jason"));

    let t = root("-102");
    assert_eq!(t.as_i64(), Some(-102));

    let t = root("102");
    assert_eq!(t.as_u64(), Some(102));

    let t = root("102.2");
    assert!(t.is_number());
    assert_eq!(shown(&t), "102.2");

    let t = root(r#""hello""#);
    assert_eq!(t.as_str(), Some("hello"));

    let t = root(r#""\"he\nllo\"""#);
    assert_eq!(t.as_str(), Some("\"he\nllo\""));

    let t = at(&root(BASIC_JSON), "loggy.programmers.#.firstName");
    let names: Vec<String> = t.as_vec().unwrap().iter().map(shown).collect();
    assert_eq!(names.len(), 4);
    assert_eq!(names, ["Brett", "Jason", "Elliotte", "1002.3"]);

    let t = at(&root(BASIC_JSON), "loggy.programmers.#.asd");
    assert!(t.is_array());
    assert_eq!(array_len(&t), 0);
}

#[test]
fn test_basic_5() {
    assert_eq!(shown(&get(BASIC_JSON, "age").unwrap().unwrap()), "100");
    assert_eq!(shown(&get(BASIC_JSON, "happy").unwrap().unwrap()), "true");
    assert_eq!(shown(&get(BASIC_JSON, "immortal").unwrap().unwrap()), "false");

    let t = get(BASIC_JSON, "noop").unwrap().unwrap();
    let m = t.as_object().unwrap();
    assert_eq!(m.len(), 1);
    assert_eq!(field(&m, "what is a wren?").as_str(), Some("a bird"));

    let r = root(BASIC_JSON);
    let top = r.as_object().unwrap();
    let loggy = field(&top, "loggy").as_object().unwrap();
    let programmers = field(&loggy, "programmers").as_vec().unwrap();
    let second = programmers[1].as_object().unwrap();
    assert_eq!(field(&second, "firstName").as_str(), Some("Jason"));
}

#[test]
fn test_is_array_is_object() {
    let r = root(BASIC_JSON);
    let mut mtok = at(&r, "loggy");
    assert!(mtok.is_object());
    assert!(!mtok.is_array());

    mtok = at(&r, "loggy.programmers");
    assert!(!mtok.is_object());
    assert!(mtok.is_array());

    mtok = at(&r, r#"loggy.programmers.#[tag="good"]#.first"#);
    assert!(mtok.is_array());

    mtok = at(&r, "loggy.programmers.0.firstName");
    assert!(mtok.as_object().is_none());
    assert!(!mtok.is_object());
    assert!(!mtok.is_array());
}

#[test]
fn test_map() {
    let a = r#""asdf""#;
    let b = r#"{"asdf":"ghjk""#;
    let c = String::from(r#"**invalid**"#);
    let d = String::from(r#"{"#);
    assert_eq!(object_len(&root(a)), 0);
    let m = root(b).as_object().unwrap();
    assert_eq!(field(&m, "asdf").as_str(), Some("ghjk"));
    assert_eq!(object_len(&Value::Object(c)), 0);
    assert_eq!(object_len(&Value::Object(d)), 0);
}

#[test]
fn test_null_array() {
    assert_eq!(array_len(&at(&root(r#"{"data":null}"#), "data")), 0);
    assert!(root(r#"{}"#).get("data").unwrap().is_none());
    assert_eq!(array_len(&at(&root(r#"{"data":[]}"#), "data")), 0);
    assert_eq!(array_len(&at(&root(r#"{"data":[null]}"#), "data")), 1);
}

#[test]
fn test_token_raw_for_literal() {
    let raws = vec!["null", "true", "false"];
    for raw in &raws {
        assert_eq!(shown(&root(raw)), *raw);
    }
}

const WIDGET_JSON: &str = r#"{
    "overflow": 9223372036854775808,
    "widget": {
        "debug": "on",
        "window": {
            "title": "Sample Konfabulator Widget",
            "name": "main_window",
            "width": 500,
            "height": 500
        },
        "image": {
            "src": "Images/Sun.png",
            "hOffset": 250,
            "vOffset": 250,
            "alignment": "center"
        },
        "text": {
            "data": "Click Here",
            "size": 36,
            "style": "bold",
            "vOffset": 100,
            "alignment": "center",
            "onMouseUp": "sun1.opacity = (sun1.opacity / 100) * 90;"
        },
        "menu": [
            {
                "title": "file",
                "sub_item": 7,
                "options": [1, 2, 3]
            },
            {
                "title": "edit",
                "sub_item": 14,
                "options": [4, 5]
            },
            {
                "title": "help",
                "sub_item": 4,
                "options": [6, 7, 8]
            }
        ]
    }
}"#;

#[test]
fn widget_json_through_get() {
    let g = |p: &str| get(WIDGET_JSON, p).unwrap().unwrap();
    assert_eq!(g("widget.window.name").as_str(), Some("main_window"));
    assert_eq!(g("widget.image.hOffset").as_u64(), Some(250));
    assert_eq!(
        g("widget.text.onMouseUp").as_str(),
        Some("sun1.opacity = (sun1.opacity / 100) * 90;")
    );
    assert_eq!(g("widget.debug").as_str(), Some("on"));
    let first = g("widget.menu.0");
    assert!(first.is_object());
    assert_eq!(first.get("title").unwrap().unwrap().as_str(), Some("file"));
    let titles: Vec<String> = g("widget.menu.#(sub_item>=7)#.title")
        .as_vec()
        .unwrap()
        .iter()
        .map(shown)
        .collect();
    assert_eq!(titles, vec!["file", "edit"]);
    assert!(g("widget.menu").is_array());
    assert_eq!(g("widget.menu.#"), Value::Usize(3));
}

#[test]
fn tag_query_through_get() {
    let r = get(BASIC_JSON, r#"loggy.programmers.#[tag="good"]#.firstName"#).unwrap().unwrap();
    let names: Vec<String> = r.as_vec().unwrap().iter().map(shown).collect();
    assert_eq!(names, vec!["Brett", "Elliotte"]);
}

#[test]
fn query_closing_at_once() {
    let (q, n) = parse_query(b")").unwrap();
    assert!(q.on);
    assert_eq!(q.path, b")");
    assert_eq!(n, 0);
    let (q, n) = parse_query(b")#").unwrap();
    assert!(q.all);
    assert_eq!(n, 1);
}

#[test]
fn value_get_is_chained() {
    let r = parse(BASIC_JSON).unwrap().unwrap();
    let loggy = r.get("loggy").unwrap().unwrap();
    assert_eq!(r.get("loggy.programmers").unwrap(), loggy.get("programmers").unwrap());
    let t = r.get("loggy.programmers").unwrap().unwrap()
        .get("1").unwrap().unwrap()
        .get("firstName").unwrap().unwrap();
    assert_eq!(t.as_str(), Some("Jason"));
    assert_eq!(r.get("loggy.programmers.1.firstName").unwrap().unwrap(), t);
    assert_eq!(r.get("age.x"), Ok(None));
}
