use ajson::getter::{getter_input_check, gjson_get, gjson_parse, Getter};
use ajson::gjson_path::{gjson_path, path_check};
use ajson::gjson::GjsonValue;

const WIDGET: &str = r#"{
    "overflow": 9223372036854775808,
    "widget": {
        "debug": "on",
        "window": {
            "title": "Sample Konfabulator Widget",
            "name": "main_window",
            "width": 500,
            "height": 500
        },
        "image": {
            "src": "Images/Sun.png",
            "hOffset": 250,
            "vOffset": 250,
            "alignment": "center"
        },
        "text": {
            "data": "Click Here",
            "size": 36,
            "style": "bold",
            "vOffset": 100,
            "alignment": "center",
            "onMouseUp": "sun1.opacity = (sun1.opacity / 100) * 90;"
        },
        "menu": [
            {
                "title": "file",
                "sub_item": 7,
                "options": [1, 2, 3]
            },
            {
                "title": "edit",
                "sub_item": 14,
                "options": [4, 5]
            },
            {
                "title": "help",
                "sub_item": 4,
                "options": [6, 7, 8]
            }
        ]
    }
}"#;

fn s(x: &str) -> GjsonValue {
    GjsonValue::String(x.to_string())
}

fn n(x: &str) -> GjsonValue {
    GjsonValue::Number(x.to_string())
}

#[test]
fn getter_test_read_value() {
    let json = WIDGET;
    let mut g = Getter::new_from_utf8(json.as_bytes());
    println!("_________");
    println!("result {:?}", g.get("widget.window.name"));
    println!("result {:?}", g.get("widget.image.hOffset"));
    println!("result {:?}", g.get("widget.text.onMouseUp"));
    println!("result {:?}", g.get("widget.debug"));

    println!("result {:?}", gjson_get(json, "widget.window.name"));
    println!("result {:?}", gjson_get(json, "widget.image.hOffset"));
    println!("result {:?}", gjson_get(json, "widget.text.onMouseUp"));
    println!("result {:?}", gjson_get(json, "widget.debug"));

    println!("result {:?}", g.get("widget.menu.0"));
    println!("result {:?}", g.get("widget.menu.#(sub_item>=7)#.title"));
    println!("result {:?}", g.get("widget.menu"));
    println!("result {:?}", g.get("widget.menu.#"));
}

#[test]
fn getter_finds_object_members() {
    let mut g = Getter::from_str(WIDGET);
    assert_eq!(g.get("widget.window.name"), s("main_window"));
    assert_eq!(g.get("widget.image.hOffset"), n("250"));
    assert_eq!(g.get("widget.text.onMouseUp"), s("sun1.opacity = (sun1.opacity / 100) * 90;"));
    assert_eq!(g.get("widget.debug"), s("on"));
    assert_eq!(g.get("overflow"), n("9223372036854775808"));
    assert_eq!(g.get("widget.nothing"), GjsonValue::NotExist);
    assert_eq!(gjson_get(WIDGET, "widget.window.width"), n("500"));
}

#[test]
fn getter_reads_array_steps() {
    let mut g = Getter::from_str(WIDGET);
    assert_eq!(g.get("widget.menu.#"), n("3"));
    assert_eq!(g.get("widget.menu.1.title"), s("edit"));
    assert_eq!(g.get("widget.menu.2.options.1"), n("7"));
    assert_eq!(g.get("widget.menu.5"), GjsonValue::NotExist);
    assert_eq!(g.get("widget.menu.#(sub_item>=7)#.title"), GjsonValue::Array(r#"["file","edit"]"#.to_string()));
    assert_eq!(g.get("widget.menu.#(sub_item<7)#.title"), GjsonValue::Array(r#"["help"]"#.to_string()));
    assert_eq!(g.get(r#"widget.menu.#(title=="help").sub_item"#), n("4"));
    assert_eq!(g.get(r#"widget.menu.#(title=="none").sub_item"#), GjsonValue::NotExist);
    assert_eq!(g.get("widget.menu.#.title"), GjsonValue::Array(r#"["file","edit","help"]"#.to_string()));
    assert_eq!(g.get("widget.menu.#(sub_item>100)#.title"), GjsonValue::Array("[]".to_string()));
    match g.get("widget.menu.0") {
        GjsonValue::Object(t) => assert!(t.starts_with('{') && t.ends_with('}') && t.contains("\"file\"")),
        other => panic!("{:?}", other),
    }
}

#[test]
fn getter_literals_and_wildcards() {
    let json = r#"{"a": true, "b": false, "c": null, "name": "x", "lang": [1, -2.5, "z", true]}"#;
    assert_eq!(gjson_get(json, "a"), GjsonValue::Boolean(true));
    assert_eq!(gjson_get(json, "b"), GjsonValue::Boolean(false));
    assert_eq!(gjson_get(json, "c"), GjsonValue::Null);
    assert_eq!(gjson_get(json, "n?me"), s("x"));
    assert_eq!(gjson_get(json, "la*"), GjsonValue::Array(r#"[1, -2.5, "z", true]"#.to_string()));
    assert_eq!(gjson_get(json, "lang.1"), n("-2.5"));
    assert_eq!(gjson_get(json, "lang.#"), n("4"));
    // A query right after the dot is read from its third byte on, so the
    // operator here is passed over and every element passes.
    assert_eq!(gjson_get(json, r#"lang.#(=="z")"#), n("1"));
    assert_eq!(gjson_get(json, r#"lang.#(abc)#"#), GjsonValue::Array("[]".to_string()));
    let fr = r#"{"fr": [{"nm":"a"},{"x":1},{"nm":"b"}]}"#;
    assert_eq!(gjson_get(fr, "fr.#(nm)#"), GjsonValue::Array(r#"[{"nm":"a"},{"nm":"b"}]"#.to_string()));
    assert_eq!(gjson_get(fr, "fr.#(nm)#.nm"), GjsonValue::Array(r#"["a","b"]"#.to_string()));
}

#[test]
fn getter_parse_and_collections() {
    assert_eq!(gjson_parse(r#"  "hi" "#), s("hi"));
    assert_eq!(gjson_parse("[1,2]"), GjsonValue::Array("[1,2]".to_string()));
    assert_eq!(gjson_parse("true"), GjsonValue::Boolean(true));
    assert_eq!(gjson_parse("   "), GjsonValue::NotExist);

    let mut g = Getter::from_str(r#"x [1, "a", {"k": 2}, null]"#);
    assert_eq!(
        g.as_array(),
        vec![n("1"), s("a"), GjsonValue::Object(r#"{"k": 2}"#.to_string()), GjsonValue::Null]
    );

    let mut g = Getter::from_str(r#"{"a": 1, "b": "x", "a": 3}"#);
    let m = g.as_map();
    assert_eq!(m, vec![("a".to_string(), n("3")), ("b".to_string(), s("x"))]);

    let mut g = Getter::from_str("no brackets");
    assert_eq!(g.as_array(), vec![]);
    assert_eq!(g.as_map(), vec![]);
}

#[test]
fn getter_count_matches_as_array() {
    let json = r#"  [1, {"a": [2, 3]}, "x", [4], null]"#;
    let mut g = Getter::from_str(json);
    let n_items = g.as_array().len();
    assert_eq!(n_items, 5);
    assert_eq!(gjson_get(json, "#"), n(&n_items.to_string()));
}

#[test]
fn getter_empty_path_reads_like_parse() {
    for json in [r#" {"a": 1} "#, "[1, 2]", r#""s""#, "false", "  nothing"] {
        assert_eq!(gjson_get(json, ""), gjson_parse(json));
    }
}

#[test]
fn getter_checks_paths_and_inputs() {
    assert!(path_check(b""));
    assert!(path_check(b"a.b.c"));
    assert!(path_check(b"a.#(x>=7)#.b"));
    assert!(path_check(br#"a.#(name=="x").b"#));
    assert!(!path_check(b"a.#(x"));
    assert!(!path_check(b"a.#(xyz<7).b"));
    assert!(!path_check(b"a.#(xyz<1.2.3)#"));
    // The two bytes after the bracket are passed over by the scan, so this
    // operator is not seen and the query has none.
    assert!(path_check(b"a.#(x<7).b"));
    assert!(!path_check(b"a.#(b.#(c)#"));
    assert!(getter_input_check(b"{}"));
    assert!(getter_input_check(b"x"));
    assert!(!getter_input_check(b"5"));
    assert!(getter_input_check(b"55"));
}

#[test]
fn getter_query_compares_numbers_by_value() {
    let json = r#"{"xs": [{"val": 1.50, "nm": "a"}, {"val": 2, "nm": "b"}, {"val": -3, "nm": "c"}]}"#;
    assert_eq!(gjson_get(json, "xs.#(val==1.5)#.nm"), GjsonValue::Array(r#"["a"]"#.to_string()));
    assert_eq!(gjson_get(json, "xs.#(val>=1.5)#.nm"), GjsonValue::Array(r#"["a","b"]"#.to_string()));
    assert_eq!(gjson_get(json, "xs.#(val<0)#.nm"), GjsonValue::Array(r#"["c"]"#.to_string()));
    assert_eq!(
        gjson_get(json, "xs.#(val!=2)#"),
        GjsonValue::Array(r#"[{"val": 1.50, "nm": "a"},{"val": -3, "nm": "c"}]"#.to_string())
    );
    assert_eq!(gjson_get(json, r#"xs.#(nm%"?")#.val"#), GjsonValue::Array("[1.50,2,-3]".to_string()));
    assert_eq!(gjson_get(json, r#"xs.#(nm!%"b")#.val"#), GjsonValue::Array("[1.50,-3]".to_string()));
    // With a one-byte key the scan passes over the operator's first byte.
    assert_eq!(gjson_get(r#"[{"v": 1}]"#, "#(v>=1)#"), GjsonValue::Array("[]".to_string()));
}

const FRIENDS: &str = r#"{
    "name": {"first": "Tom", "last": "Anderson"},
    "age":37,
    "children": ["Sara","Alex","Jack"],
    "fav.movie": "Deer Hunter",
    "friends": [
        {"first": "Dale", "last": "Murphy", "age": 44, "nets": ["ig", "fb", "tw"]},
        {"first": "Roger", "last": "Craig", "age": 68, "nets": ["fb", "tw"]},
        {"first": "Jane", "last": "Murphy", "age": 47, "nets": ["ig", "tw"]}
    ]
}"#;

#[test]
fn getter_path_syntax_examples() {
    let mut g = Getter::from_str(FRIENDS);
    assert_eq!(g.get("name.last"), s("Anderson"));
    assert_eq!(g.get("age"), n("37"));
    assert_eq!(g.get("children"), GjsonValue::Array(r#"["Sara","Alex","Jack"]"#.to_string()));
    assert_eq!(g.get("children.#"), n("3"));
    assert_eq!(g.get("children.1"), s("Alex"));
    assert_eq!(g.get("child*.2"), s("Jack"));
    assert_eq!(g.get("c?ildren.0"), s("Sara"));
    assert_eq!(g.get(r#"fav\.movie"#), s("Deer Hunter"));
    assert_eq!(g.get("friends.#.first"), GjsonValue::Array(r#"["Dale","Roger","Jane"]"#.to_string()));
    assert_eq!(g.get("friends.1.last"), s("Craig"));
    assert_eq!(g.get("friends.#"), n("3"));
    assert_eq!(g.get("friends.#.age"), GjsonValue::Array("[44,68,47]".to_string()));
    assert_eq!(g.get(r#"friends.#(last=="Murphy").first"#), s("Dale"));
    assert_eq!(
        g.get(r#"friends.#(last=="Murphy")#.first"#),
        GjsonValue::Array(r#"["Dale","Jane"]"#.to_string())
    );
    assert_eq!(g.get("friends.#(age>45)#.last"), GjsonValue::Array(r#"["Craig","Murphy"]"#.to_string()));
    assert_eq!(g.get(r#"friends.#(first%"D*").last"#), s("Murphy"));
}

#[test]
fn getter_index_matches_as_array() {
    let json = r#"x [true, {"a": [2, 3]}, "y", -0.5]"#;
    let items = Getter::from_str(json).as_array();
    for (k, item) in items.iter().enumerate() {
        assert_eq!(&gjson_get(json, &k.to_string()), item);
    }
    assert_eq!(gjson_get(json, "4"), GjsonValue::NotExist);
    assert_eq!(gjson_get(json, "3"), n("-0.5"));
}

#[test]
fn gjson_ex() {
    let example = r#"
{"age":100, "name":{"here":"B\\\"R"},
	"noop":{"what is a wren?":"a bird"},
	"happy":true,"immortal":false,
	"items":[1,2,3,{"tags":[1,2,3],"points":[[1,2],[3,4]]},4,5,6,7],
	"arr":["1",2,"3",{"hello":"world"},"4",5],
	"vals":[1,2,3,{"sadf":sdx"asdf"}],"name":{"first":"tom","last":null},
	"created":"2014-05-16T08:28:06.989Z",
	"loggy":{
		"programmers": [
    	    {
    	        "firstName": "Brett",
    	        "lastName": "McLaughlin",
    	        "email": "aaaa",
				"tag": "good"
    	    },
    	    {
    	        "firstName": "Jason",
    	        "lastName": "Hunter",
    	        "email": "bbbb",
				"tag": "bad"
    	    },
    	    {
    	        "firstName": "Elliotte",
    	        "lastName": "Harold",
    	        "email": "cccc",
				"tag":, "good"
    	    },
			{
				"firstName": 1002.3,
				"age": 101
			}
    	]
	},
	"lastly":{"yay":"final"}
}
"#;
    let r = gjson_get(example, r#"loggy.programmers.#[tag="good"]#.firstName"#);
    println!("result {:?}", r);
    assert_eq!(r, GjsonValue::Array(r#"["Brett","Elliotte"]"#.to_string()));
}

fn show_path(v: &[u8]) -> String {
    let p = gjson_path(v);
    format!(
        "<Path ok={} part=`{}` more={} wild={} arrch={} next=`{}` query={}>",
        p.ok,
        String::from_utf8_lossy(p.part),
        p.more,
        p.wild,
        p.arrch,
        String::from_utf8_lossy(p.next),
        match &p.query {
            Some(q) => format!(
                "<on={} all={} path=`{}` op={:?} value={:?}>",
                q.on,
                q.all,
                String::from_utf8_lossy(q.path),
                q.op.map(|o| String::from_utf8_lossy(o).to_string()),
                q.value
            ),
            None => "none".to_string(),
        }
    )
}

#[test]
fn test_parse_path() {
    let v = r#"name"#.as_bytes();
    println!("{}", show_path(v));

    let v = r#"#(last=="Murphy")#.first"#.as_bytes();
    println!("{}", show_path(v));

    let v = r#"friends.#(first!%"D*")#.last"#.as_bytes();
    println!("{}", show_path(v));

    let v = r#"c?ildren.0"#.as_bytes();
    println!("{}", show_path(v));

    let v = r#"#(sub_item>7)#.title"#.as_bytes();
    println!("{}", show_path(v));
}

#[test]
fn gjson_paths_are_read_step_by_step() {
    let p = gjson_path(br#"#(last=="Murphy")#.first"#);
    assert!(p.ok && p.more && p.arrch && !p.wild);
    assert_eq!(p.part, br#"#(last=="Murphy")#"#);
    assert_eq!(p.next, b"first");
    let q = p.query.unwrap();
    assert!(q.on && q.all);
    assert_eq!(q.path, b"last");
    assert_eq!(q.op, Some(&b"=="[..]));
    assert_eq!(q.value, Some(GjsonValue::String("Murphy".to_string())));

    let p = gjson_path(b"c?ildren.0");
    assert!(p.ok && p.more && p.wild && !p.arrch && p.query.is_none());
    assert_eq!(p.part, b"c?ildren");
    assert_eq!(p.next, b"0");

    let p = gjson_path(b"name");
    assert!(p.ok && !p.more);
    assert_eq!(p.part, b"name");
    assert_eq!(p.next, b"");

    let p = gjson_path(br"fav\.movie.x");
    assert_eq!(p.part, br"fav\.movie");
    assert_eq!(p.next, b"x");

    let p = gjson_path(b"");
    assert!(!p.ok && !p.more);
}

#[test]
fn getter_each_lists_what_the_rest_finds() {
    let json = r#"[{"a": 1}, {"b": 2}, {"a": "x"}, 7, {"a": {"c": [1]}}]"#;
    assert_eq!(gjson_get(json, "#.a"), GjsonValue::Array(r#"[1,"x",{"c": [1]}]"#.to_string()));
    assert_eq!(gjson_get(json, "#.z"), GjsonValue::Array("[]".to_string()));
    assert_eq!(gjson_get(json, "#.a.c"), GjsonValue::Array("[[1]]".to_string()));
}
