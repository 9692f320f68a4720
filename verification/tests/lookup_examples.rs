use ajson::value::Value;
use ajson::{get, parse};

const BASIC_JSON: &str = r#"
{"age":100, "name":{"here":"B\\\"R"},
	"noop":{"what is a wren?":"a bird"},
	"happy":true,"immortal":false,
	"items":[1,2,3,{"tags":[1,2,3],"points":[[1,2],[3,4]]},4,5,6,7],
	"arr":["1",2,"3",{"hello":"world"},"4",5],
	"vals":[1,2,3,{"sadf":sdx"asdf"}],"name":{"first":"tom","last":null},
	"created":"2014-05-16T08:28:06.989Z",
	"loggy":{
		"programmers": [
    	    {
    	        "firstName": "Brett",
    	        "lastName": "McLaughlin",
    	        "email": "aaaa",
				"tag": "good"
    	    },
    	    {
    	        "firstName": "Jason",
    	        "lastName": "Hunter",
    	        "email": "bbbb",
				"tag": "bad"
    	    },
    	    {
    	        "firstName": "Elliotte",
    	        "lastName": "Harold",
    	        "email": "cccc",
				"tag":, "good"
    	    },
			{
				"firstName": 1002.3,
				"age": 101
			}
    	]
	},
	"lastly":{"yay":"final"}
}
"#;

const BASIC_JSON2: &str = r#"
{
    "name": {"first": "Tom", "last": "Anderson"},
    "age":37,
    "children": ["Sara","Alex","Jack"],
    "fav.movie": "Deer Hunter",
    "friends": [
        {"first": "Dale", "last": "Murphy", "age": 44, "nets": ["ig", "fb", "tw"]},
        {"first": "Roger", "last": "Craig", "age": 68, "nets": ["fb", "tw"]},
        {"first": "Jane", "last": "Murphy", "age": 47, "nets": ["ig", "tw"]}
    ]
}
"#;

fn at(v: &Value, path: &str) -> Value {
    v.get(path).unwrap().unwrap()
}

fn strings(v: &Value) -> Vec<String> {
    v.as_vec()
        .unwrap()
        .iter()
        .map(|x| x.to_display_string())
        .collect()
}

fn root(json: &str) -> Value {
    parse(json).unwrap().unwrap()
}

#[test]
fn test_example() {
    let r = root(BASIC_JSON2);
    assert_eq!(at(&r, "name.last").as_str(), Some("Anderson"));
    assert_eq!(at(&r, "age").as_i64(), Some(37));
    assert_eq!(strings(&at(&r, "children")), vec!["Sara", "Alex", "Jack"]);
    assert_eq!(at(&r, "children.#").as_i64(), Some(3));
    assert_eq!(at(&r, "children.1").as_str(), Some("Alex"));
    assert_eq!(at(&r, "child*.2").as_str(), Some("Jack"));
    assert_eq!(at(&r, "c?ildren.0").as_str(), Some("Sara"));
    assert_eq!(at(&r, "fav\\.movie").as_str(), Some("Deer Hunter"));
    assert_eq!(at(&r, "friends.1.last").as_str(), Some("Craig"));
    assert_eq!(strings(&at(&r, "friends.#.first")), vec!["Dale", "Roger", "Jane"]);
}

#[test]
fn test_query_example() {
    let r = root(BASIC_JSON2);
    assert_eq!(at(&r, r#"friends.#(last=="Murphy").first"#).as_str(), Some("Dale"));
    assert_eq!(strings(&at(&r, r#"friends.#(last=="Murphy")#.first"#)), vec!["Dale", "Jane"]);
    assert_eq!(strings(&at(&r, r#"friends.#(age>45)#.last"#)), vec!["Craig", "Murphy"]);
    assert_eq!(at(&r, r#"friends.#(first%"D*").last"#).as_str(), Some("Murphy"));
    assert_eq!(strings(&at(&r, r#"friends.#(nets.#(=="fb"))#.first"#)), vec!["Dale", "Roger"]);
}

#[test]
fn test_basic() {
    let r = root(BASIC_JSON);
    assert_eq!(at(&r, r#"loggy.programmers.#[tag="good"].firstName"#).as_str(), Some("Brett"));
    assert_eq!(
        strings(&at(&r, r#"loggy.programmers.#[tag="good"]#.firstName"#)),
        vec!["Brett", "Elliotte"]
    );
}

#[test]
fn test_basic_4() {
    assert_eq!(get(BASIC_JSON, "items.3.tags.#").unwrap().unwrap().as_u64(), Some(3));
    assert_eq!(get(BASIC_JSON, "items.3.points.1.#").unwrap().unwrap().as_u64(), Some(2));
    assert_eq!(get(BASIC_JSON, "items.#").unwrap().unwrap().as_u64(), Some(8));
    assert_eq!(get(BASIC_JSON, "vals.#").unwrap().unwrap().as_u64(), Some(4));
    assert!(!get(BASIC_JSON, "name.last").unwrap().is_some());
    assert_eq!(get(BASIC_JSON, "name.here").unwrap().unwrap().as_str(), Some("B\\\"R"));
    assert_eq!(get(BASIC_JSON, "arr.#").unwrap().unwrap().as_u64(), Some(6));
    assert_eq!(get(BASIC_JSON, "arr.3.hello").unwrap().unwrap().as_str(), Some("world"));
}

#[test]
fn test_plus_53_bit_ints() {
    let json = r#"{"IdentityData":{"GameInstanceId":634866135153775564}}"#;
    let v = get(json, "IdentityData.GameInstanceId").unwrap().unwrap();
    assert_eq!(v.as_u64(), Some(634866135153775564));
    assert_eq!(v.as_i64(), Some(634866135153775564));

    let json = r#"{"IdentityData":{"GameInstanceId":634866135153775564.88172}}"#;
    let v = get(json, "IdentityData.GameInstanceId").unwrap().unwrap();
    assert_eq!(v.as_u64(), Some(634866135153775564));
    assert_eq!(v.as_i64(), Some(634866135153775564));

    let json = r#"
    {
		"min_uint64": 0,
		"max_uint64": 18446744073709551615,
		"overflow_uint64": 18446744073709551616,
		"min_int64": -9223372036854775808,
		"max_int64": 9223372036854775807,
		"overflow_int64": 9223372036854775808,
		"min_uint53":  0,
		"max_uint53":  4503599627370495,
		"overflow_uint53": 4503599627370496,
		"min_int53": -2251799813685248,
		"max_int53": 2251799813685247,
		"overflow_int53": 2251799813685248
	}
    "#;
    let num = |p: &str| get(json, p).unwrap().unwrap();
    assert_eq!(num("min_uint53").as_u64(), Some(0));
    assert_eq!(num("max_uint53").as_u64(), Some(4503599627370495));
    assert_eq!(num("overflow_uint53").as_i64(), Some(4503599627370496));
    assert_eq!(num("min_int53").as_i64(), Some(-2251799813685248));
    assert_eq!(num("max_int53").as_i64(), Some(2251799813685247));
    assert_eq!(num("overflow_int53").as_i64(), Some(2251799813685248));
    assert_eq!(num("min_uint64").as_u64(), Some(0));
    assert_eq!(num("max_uint64").as_u64(), Some(18446744073709551615));
    assert_eq!(num("overflow_uint64").as_i64(), Some(0));
    assert_eq!(num("min_int64").as_i64(), Some(-9223372036854775808));
    assert_eq!(num("max_int64").as_i64(), Some(9223372036854775807));
    assert_eq!(num("overflow_int64").as_i64(), Some(0));
}

#[test]
fn test_unicode() {
    let json = r#"{"key":0,"的情况下解":{"key":1,"的情况":2}}"#;
    let r = root(json);
    assert_eq!(at(&r, "的情况下解.key").as_i64(), Some(1));
    assert_eq!(at(&r, "的情况下解.的情况").as_i64(), Some(2));
    assert_eq!(at(&r, "的情况下解.的?况").as_i64(), Some(2));
    assert_eq!(at(&r, "的情况下解.的?*").as_i64(), Some(2));
    assert_eq!(at(&r, "的情况下解.*?况").as_i64(), Some(2));
    assert_eq!(at(&r, "的情?下解.*?况").as_i64(), Some(2));
    assert!(r.get("的情下解.*?况").unwrap().is_none());
}

#[test]
fn test_emoji() {
    let input = r#"{"utf8":"Example emoji, KO: \ud83d\udd13, \ud83c\udfc3 OK: \u2764\ufe0f "}"#;
    let r = root(input);
    assert_eq!(at(&r, "utf8").as_str(), Some("Example emoji, KO: 🔓, 🏃 OK: ❤️ "));
}

#[test]
fn test_parse_any() {
    assert_eq!(parse("100").unwrap().unwrap().as_u64(), Some(100));
    assert_eq!(parse("true").unwrap().unwrap().as_bool(), Some(true));
    assert_eq!(parse("false").unwrap().unwrap().as_bool(), Some(false));
    assert_eq!(parse("yikes").unwrap().is_some(), false);
}

#[test]
fn test_array() {
    let json = r#"
    {
        "widget": {
            "debug": "on",
            "window": {
                "title": "Sample Konfabulator Widget",
                "name": "main_window",
                "width": 500,
                "height": 500
            },
            "image": {
                "src": "Images/Sun.png",
                "hOffset": 250,
                "vOffset": 250,
                "alignment": "center"
            },
            "text": {
                "data": "Click Here",
                "size": 36,
                "style": "bold",
                "vOffset": 100,
                "alignment": "center",
                "onMouseUp": "sun1.opacity = (sun1.opacity / 100) * 90;"
            },
            "menu": [
                {
                    "title": "file",
                    "sub_item": 7,
                    "options": [1, 2, 3]
                },
                {
                    "title": "edit",
                    "sub_item": 14,
                    "options": [4, 5]
                },
                {
                    "title": "help",
                    "sub_item": 4,
                    "options": [6, 7, 8]
                }
            ]
        }
    }"#;
    let r = root(json);
    assert_eq!(strings(&at(&r, "widget.menu.#(sub_item>5)#.title")), vec!["file", "edit"]);
    assert_eq!(strings(&at(&r, "widget.menu.#.options.#(>4)")), vec!["5", "6"]);
    assert_eq!(at(&r, "widget.menu.#.options.#(>4)#").as_vec().unwrap().len(), 3);
}

#[test]
fn test_issue_38() {
    let first = |json: &str| at(&root(json), "0").to_display_string();
    assert_eq!(first(r#"["S3O PEDRO DO BUTI\udf93"]"#), r#"S3O PEDRO DO BUTI\udf93"#);
    assert_eq!(first(r#"["S3O PEDRO DO BUTI\udf93asdf"]"#), "S3O PEDRO DO BUTI\\udf93asdf");
    assert_eq!(first(r#"["S3O PEDRO DO BUTI\udf93\u"]"#), "S3O PEDRO DO BUTI\\udf93\\u");
    assert_eq!(first(r#"["S3O PEDRO DO BUTI\udf93\u1"]"#), "S3O PEDRO DO BUTI\\udf93\\u1");
    assert_eq!(first(r#"["S3O PEDRO DO BUTI\udf93\u13"]"#), "S3O PEDRO DO BUTI\\udf93\\u13");
    assert_eq!(first(r#"["S3O PEDRO DO BUTI\udf93\u134"]"#), "S3O PEDRO DO BUTI\\udf93\\u134");
    assert_eq!(first(r#"["S3O PEDRO DO BUTI\udf93\u1345"]"#), "S3O PEDRO DO BUTI\\udf93ፅ");
    assert_eq!(first(r#"["S3O PEDRO DO BUTI\udf93\u1345asd"]"#), "S3O PEDRO DO BUTI\\udf93ፅasd");
}

#[test]
fn test_escape_path() {
    let json = r#"{
		"test":{
			"*":"valZ",
			"*v":"val0",
			"keyv*":"val1",
			"key*v":"val2",
			"keyv?":"val3",
			"key?v":"val4",
			"keyv.":"val5",
			"key.v":"val6",
			"keyk*":{"key?":"val7"}
		}
	}"#;
    let r = root(json);
    assert_eq!(at(&r, "test.\\*").as_str(), Some("valZ"));
    assert_eq!(at(&r, "test.\\*v").as_str(), Some("val0"));
    assert_eq!(at(&r, "test.keyv\\*").as_str(), Some("val1"));
    assert_eq!(at(&r, "test.key\\*v").as_str(), Some("val2"));
    assert_eq!(at(&r, "test.keyv\\?").as_str(), Some("val3"));
    assert_eq!(at(&r, "test.key\\?v").as_str(), Some("val4"));
    assert_eq!(at(&r, "test.keyv\\.").as_str(), Some("val5"));
    assert_eq!(at(&r, "test.key\\.v").as_str(), Some("val6"));
    assert_eq!(at(&r, "test.keyk\\*.key\\?").as_str(), Some("val7"));
}
