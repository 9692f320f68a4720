use ajson::decimal::decimal_order;
use ajson::element::{false_u8, null_u8, number_u8, read_one, true_u8};
use ajson::number::{parse_i64_text, parse_u64_text, Number};
use ajson::parser::{bytes_to_map, bytes_to_vec};
use ajson::path::Path;
use ajson::ref_reader::{ByteReader, RefReader};
use ajson::text::{utf8_lossy, utf8_valid};
use ajson::unescape::{unescape, unescape_bytes};
use ajson::utf8_reader::UTF8Reader;
use ajson::util::{equal_escape_u8, trim_space_u8, trim_u8};
use ajson::path_v2::{self, Group};
use ajson::value::Value;
use ajson::wild::{is_match, is_match_checked, is_match_u8, wild_pattern};
use ajson::{get, parse, Error};

const DOC: &str = r#"{"a":{"b":[10,20,30]},"s":"x","n":-4.5,"t":true,"z":null}"#;

#[test]
fn leading_text_is_skipped() {
    let plain = get(DOC, "a.b.1").unwrap().unwrap();
    let prefixed = get(&format!("garbage: {}", DOC), "a.b.1").unwrap().unwrap();
    assert_eq!(plain, prefixed);
    assert_eq!(plain.as_u64(), Some(20));
}

#[test]
fn text_without_json_gives_nothing() {
    assert_eq!(get("no json here", "a"), Ok(None));
    assert_eq!(get("", "a.b"), Ok(None));
}

#[test]
fn empty_path_gives_nothing() {
    assert_eq!(get(DOC, ""), Ok(None));
    assert_eq!(get("[1,2]", ""), Ok(None));
}

#[test]
fn path_splits_at_first_dot() {
    let p = Path::from_slice(b"name.first.x").unwrap();
    assert!(p.ok);
    assert!(p.more);
    assert_eq!(p.part, b"name");
    assert_eq!(p.next, b"first.x");
    let q = Path::from_slice(b"name").unwrap();
    assert!(!q.more);
    assert_eq!(q.part, b"name");
    assert_eq!(q.next, b"");
    let n = p.parse_next().unwrap();
    assert_eq!(n.part, b"first");
}

#[test]
fn value_kinds() {
    let r = parse(DOC).unwrap().unwrap();
    assert!(r.is_object());
    assert!(r.get("a.b").unwrap().unwrap().is_array());
    assert!(r.get("s").unwrap().unwrap().is_string());
    assert!(r.get("n").unwrap().unwrap().is_number());
    assert!(r.get("t").unwrap().unwrap().is_bool());
    assert!(r.get("z").unwrap().unwrap().is_null());
    assert_eq!(r.get("n").unwrap().unwrap().as_i64(), Some(-4));
    assert_eq!(r.get("a.b.#").unwrap().unwrap(), Value::Usize(3));
    assert_eq!(r.get("a.b.#").unwrap().unwrap().to_display_string(), "3");
    assert_eq!(r.get("z").unwrap().unwrap().to_display_string(), "null");
    assert_eq!(Value::Boolean(true).get("a"), Ok(None));
}

#[test]
fn chained_lookup_follows_the_dots() {
    let r = parse(DOC).unwrap().unwrap();
    let direct = r.get("a.b.2").unwrap().unwrap();
    let chained = r.get("a").unwrap().unwrap().get("b").unwrap().unwrap().get("2").unwrap().unwrap();
    assert_eq!(direct, chained);
    assert_eq!(direct.as_u64(), Some(30));
}

#[test]
fn plain_value_ends_the_path() {
    let json = r#"{"a":"x","b":{"c":1}}"#;
    assert_eq!(get(json, "a.c"), Ok(None));
    let a = get(json, "a").unwrap().unwrap();
    assert_eq!(a.get("c"), Ok(None));
    let people = r#"{"age":37,"children":["Sara","Alex","Jack"]}"#;
    assert_eq!(get(people, "age.0"), Ok(None));
    assert_eq!(get(people, "children.1.x"), Ok(None));
    let nested = r#"{"x":{"y":{"z":5}}}"#;
    let direct = get(nested, "x.y.z").unwrap().unwrap();
    let chained = get(nested, "x").unwrap().unwrap().get("y.z").unwrap().unwrap();
    assert_eq!(direct, chained);
}

#[test]
fn lists_and_objects_stay_json() {
    let json = r#"{"xs":[{"s":"a\"b"},{"s":"c"}],"n":1}"#;
    let v = get(json, "xs.#.s").unwrap().unwrap();
    assert_eq!(v.to_display_string(), r#"["a\"b","c"]"#);
    let o = get(json, r#"{n,"q":xs.0.s}"#).unwrap().unwrap();
    assert_eq!(o.to_display_string(), r#"{"n":1,"q":"a\"b"}"#);
}

#[test]
fn errors() {
    assert_eq!(get(DOC, "a.#()"), Err(Error::Path));
    assert_eq!(Path::from_slice(b"#()").err(), Some(Error::Path));
    assert_eq!(get("{\"", "a"), Err(Error::ObjectKey));
    assert_eq!(bytes_to_map(b"abc").err(), Some(Error::Object));
    assert_eq!(true_u8(b"tru").err(), Some(Error::Eof));
    assert_eq!(parse("tru"), Err(Error::Eof));
}

#[test]
fn literals() {
    assert_eq!(true_u8(b"true,1"), Ok((&b"true"[..], &b",1"[..])));
    assert_eq!(false_u8(b"false]"), Ok((&b"false"[..], &b"]"[..])));
    assert_eq!(null_u8(b"null"), Ok((&b"null"[..], &b""[..])));
    assert_eq!(number_u8(b"-12.5e3,"), Ok((&b"-12.5"[..], &b"e3,"[..])));
    let (el, rest) = read_one(b"  [1, 2] tail").unwrap();
    assert!(el.is_some());
    assert_eq!(rest, b" tail");
}

#[test]
fn arrays_and_objects_as_values() {
    let v = bytes_to_vec(b"[1, \"two\", [3]]").unwrap();
    assert_eq!(v.len(), 3);
    assert_eq!(v[0].as_u64(), Some(1));
    assert_eq!(v[1].as_str(), Some("two"));
    assert!(v[2].is_array());
    let m = bytes_to_map(b"{\"k\": 1, \"j\": 2, \"k\": 3}").unwrap();
    assert_eq!(m.len(), 2);
    assert_eq!(m[0].0, "k");
    assert_eq!(m[0].1.as_u64(), Some(3));
    assert_eq!(m[1].0, "j");
    assert_eq!(bytes_to_map(b"{").unwrap().len(), 0);
}

#[test]
fn decimal_order_is_exact() {
    assert_eq!(decimal_order(b"1.5", b"1.50"), 0);
    assert_eq!(decimal_order(b"2", b"10"), -1);
    assert_eq!(decimal_order(b"10", b"9.99"), 1);
    assert_eq!(decimal_order(b"-3", b"2"), -1);
    assert_eq!(decimal_order(b"-0", b"0.0"), 0);
    assert_eq!(decimal_order(b"0.1", b"0.10000000000000000001"), -1);
    for (a, b) in [(&b"7"[..], &b"7.01"[..]), (b"-1.5", b"-1.25"), (b"100", b"1e2")] {
        assert_eq!(decimal_order(a, b), -decimal_order(b, a));
    }
}

#[test]
fn queries_compare_numbers_and_strings() {
    let json = r#"{"xs":[{"v":1.5,"s":"b"},{"v":10,"s":"a"},{"v":2,"s":"c"}]}"#;
    let big: Vec<String> = get(json, "xs.#(v>1.9)#.s")
        .unwrap()
        .unwrap()
        .as_vec()
        .unwrap()
        .iter()
        .map(|x| x.to_display_string())
        .collect();
    assert_eq!(big, vec!["a", "c"]);
    assert_eq!(get(json, r#"xs.#(s<"b").v"#).unwrap().unwrap().as_u64(), Some(10));
    assert_eq!(get(json, r#"xs.#(s!="b").v"#).unwrap().unwrap().as_u64(), Some(10));
    assert_eq!(get(json, "xs.#(v==1.50).s").unwrap().unwrap().as_str(), Some("b"));
}

#[test]
fn selectors_build_values() {
    let json = r#"{"name":{"first":"Tom","last":"A"},"age":37}"#;
    let v = get(json, "[name.first,age]").unwrap().unwrap();
    assert_eq!(v.to_display_string(), r#"["Tom",37]"#);
    let o = get(json, "{name.last,years:age}").unwrap().unwrap();
    assert_eq!(o.to_display_string(), r#"{"last":"A","years":37}"#);
}

#[test]
fn wildcards() {
    assert_eq!(wild_pattern(b"a?b*"), b"a.b.+?".to_vec());
    assert_eq!(wild_pattern(b"plain"), b"plain".to_vec());
    assert!(is_match("hello", "h*o"));
    assert!(is_match("hello", "h?llo"));
    assert!(!is_match("hello", "x*"));
    assert!(is_match_u8(b"children", b"c?ildren"));
    assert_eq!(is_match_checked("(", "("), None);
    assert_eq!(is_match_checked("hello", "h*"), Some(true));
    assert_eq!(is_match_checked("hello", "x?"), Some(false));
}

#[test]
fn trimming() {
    assert_eq!(trim_u8(b"xxabcxx", b'x'), b"abc");
    assert_eq!(trim_u8(b"xxxx", b'x'), b"");
    assert_eq!(trim_space_u8(b"  a b  "), b"a b");
    assert_eq!(trim_space_u8(b""), b"");
}

#[test]
fn escaped_keys() {
    assert!(equal_escape_u8(b"fav\\.movie", b"fav.movie"));
    assert!(equal_escape_u8(b"fav.movie", b"fav\\.movie"));
    assert!(equal_escape_u8(b"abc", b"abc"));
    assert!(!equal_escape_u8(b"abc", b"abd"));
    assert!(!equal_escape_u8(b"ab", b"abc"));
}

#[test]
fn unescaping() {
    assert_eq!(unescape(b"plain text"), "plain text");
    assert_eq!(unescape(b"a\\nb\\t\\\"q\\\""), "a\nb\t\"q\"");
    assert_eq!(unescape(b"\\u00e9"), "\u{e9}");
    assert_eq!(unescape(b"\\ud83d\\udd13"), "\u{1f513}");
    assert_eq!(unescape_bytes(b"x\\/y"), b"x/y".to_vec());
    assert_eq!(unescape(b"end\\"), "end");
}

#[test]
fn text_wrappers() {
    assert_eq!(utf8_lossy(&[0x61, 0xff, 0x62]), "a\u{FFFD}b");
    assert_eq!(utf8_lossy("é".as_bytes()), "é");
    assert!(utf8_valid(b"ok"));
    assert!(!utf8_valid(&[0xff]));
}

#[test]
fn numbers() {
    let n = Number::from_bytes(b"-12.75");
    assert_eq!(n.as_str(), "-12.75");
    assert_eq!(n.to_i64(), -12);
    let m = Number::from_bytes(b"42");
    assert_eq!(m.to_u64(), 42);
    assert_eq!(parse_u64_text(b"18446744073709551615"), Some(18446744073709551615));
    assert_eq!(parse_u64_text(b"18446744073709551616"), None);
    assert_eq!(parse_i64_text(b"-9223372036854775808"), Some(-9223372036854775808));
    assert_eq!(parse_i64_text(b"x"), None);
}

#[test]
fn ref_reader_walks_bytes() {
    let mut r = RefReader::new(b"abc");
    assert_eq!(r.next(), Some(b'a'));
    assert_eq!(r.position(), 0);
    assert_eq!(r.peek(), Some(b'a'));
    assert_eq!(r.next(), Some(b'b'));
    assert_eq!(r.next(), Some(b'c'));
    assert_eq!(r.next(), None);
    r.seek(1);
    assert_eq!(r.position(), 1);
    assert_eq!(r.slice(0, 1), b"ab");
}

#[test]
fn utf8_reader_reads_strings() {
    let mut r = UTF8Reader::new(br#""he said \"hi\"" rest"#);
    assert_eq!(r.len(), 21);
    assert_eq!(r.read_string(), "");
    let mut r = UTF8Reader::new(br#""he said \"hi\"" rest"#);
    assert_eq!(r.next(), Some(b'"'));
    assert_eq!(r.read_string(), r#"he said \"hi\""#);
    let mut j = UTF8Reader::new(br#"{"a":[1,2]} tail"#);
    assert_eq!(j.next(), Some(b'{'));
    assert_eq!(j.read_json(), r#"{"a":[1,2]}"#);
}

#[test]
fn builder_sets_fields() {
    let p = Path::builder().ident(b"key").more(true).next(b"rest").ok(true).build().unwrap();
    assert_eq!(p.part, b"key");
    assert_eq!(p.next, b"rest");
    assert!(p.more);
    assert!(p.ok);
    assert!(!p.wild);
    assert!(!p.has_query());
    assert!(!p.has_selectors());
}

#[test]
fn first_match_is_first_of_all_matches() {
    let json = r#"[{"a":1},{"a":5},{"a":7}]"#;
    let all = get(json, "#(a>2)#").unwrap().unwrap().as_vec().unwrap();
    let first = get(json, "#(a>2)").unwrap().unwrap();
    assert_eq!(all.len(), 2);
    assert_eq!(first, all[0]);
    assert_eq!(first.to_display_string(), r#"{"a":5}"#);
    let none = get(json, "#(a>9)#").unwrap().unwrap();
    assert_eq!(none.as_vec().map(|v| v.len()), Some(0));
    assert_eq!(get(json, "#(a>9)"), Ok(None));
}

#[test]
fn count_and_index_agree_with_values() {
    let arr = Value::Array(r#"[1, [2, 3], "x", {"k": null}]"#.to_string());
    let values = arr.as_vec().unwrap();
    assert_eq!(arr.get("#"), Ok(Some(Value::Usize(values.len()))));
    assert_eq!(values.len(), 4);
    for (i, v) in values.iter().enumerate() {
        assert_eq!(arr.get(&i.to_string()).unwrap().as_ref(), Some(v));
    }
    assert_eq!(arr.get("4"), Ok(None));
    let empty = Value::Array("[]".to_string());
    assert_eq!(empty.get("#"), Ok(Some(Value::Usize(0))));
    assert_eq!(empty.as_vec().map(|v| v.len()), Some(0));
}

#[test]
fn added_paths_are_found_again() {
    let mut group = Group::new(b"");
    group.add(0, path_v2::parse(b"a.b").unwrap());
    group.add(1, path_v2::parse(b"a.c").unwrap());
    let a = &group.m.as_ref().unwrap()[0];
    assert_eq!(a.raw, b"a");
    let subs = a.m.as_ref().unwrap();
    assert_eq!(subs[0].raw, b"b");
    assert!(subs[0].path_end);
    assert_eq!(subs[0].index, 0);
    assert_eq!(subs[1].raw, b"c");
    assert!(subs[1].path_end);
    assert_eq!(subs[1].index, 1);
}

#[test]
fn ref_reader_steps_over_values() {
    let mut r = RefReader::new(b"true,");
    assert_eq!(r.read_boolean_value(), (0, 3));
    assert_eq!(r.position(), 4);

    let mut r = RefReader::new(b"false");
    assert_eq!(r.read_boolean_value(), (0, 4));

    let mut r = RefReader::new(b"null");
    assert_eq!(r.read_null_value(), (0, 3));
    assert_eq!(r.next(), None);

    let mut r = RefReader::new(br#"{"a":[1]} x"#);
    assert_eq!(r.read_json_value(), (0, 8));
    assert_eq!(r.position(), 9);

    let mut r = RefReader::new(br#""ab\"c" rest"#);
    assert_eq!(r.peek(), Some(b'"'));
    assert_eq!(r.read_str_value(), (0, 6));
    assert_eq!(r.position(), 7);

    let mut r = RefReader::new(br#""ab"#);
    assert_eq!(r.peek(), Some(b'"'));
    assert_eq!(r.read_str_value(), (0, 3));

    let mut r = RefReader::new(b"-12.5,");
    assert_eq!(r.peek(), Some(b'-'));
    assert_eq!(r.read_number_value(), (0, 4));
    assert_eq!(r.position(), 5);

    let mut r = RefReader::new(b"abc");
    r.next();
    r.next();
    r.back(1);
    assert_eq!(r.position(), 0);
    r.forward(2);
    assert_eq!(r.position(), 2);
    assert_eq!(r.tail(b"abc"), b"c");
}

#[test]
fn dotted_index_is_chained() {
    let json = r#"[{"b":1},{"b":2,"c":[7,8]}]"#;
    let direct = get(json, "1.c.0").unwrap().unwrap();
    let chained = get(json, "1").unwrap().unwrap().get("c.0").unwrap().unwrap();
    assert_eq!(direct, chained);
    assert_eq!(direct.as_u64(), Some(7));
    assert_eq!(get(json, "0.x"), Ok(None));
}
