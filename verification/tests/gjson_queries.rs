use ajson::gjson::{gjson_parse_query, gjson_query_matches, GjsonValue};

#[test]
fn queries_are_read_from_their_text() {
    let q = gjson_parse_query(b"#(first)#").unwrap();
    assert!(q.on);
    assert!(q.all);
    assert_eq!(q.path, b"first");
    assert!(q.op.is_none());

    let q = gjson_parse_query(b"#(first)").unwrap();
    assert!(!q.all);
    assert_eq!(q.path, b"");

    let q = gjson_parse_query(b"#(age>45)#.x").unwrap();
    assert_eq!(q.path, b"age");
    assert_eq!(q.op, Some(&b">"[..]));
    assert!(matches!(&q.value, Some(GjsonValue::Number(n)) if n == "45"));

    let q = gjson_parse_query(br#"#(name=="x")#"#).unwrap();
    assert_eq!(q.path, b"name");
    assert_eq!(q.op, Some(&b"=="[..]));
    assert!(matches!(&q.value, Some(GjsonValue::String(s)) if s == "x"));

    assert!(gjson_parse_query(b"#(open").is_none());
}

#[test]
fn values_pass_queries() {
    let q = gjson_parse_query(br#"#(name=="x")#"#).unwrap();
    assert_eq!(gjson_query_matches(&q, &GjsonValue::String("x".to_string())), Some(true));
    assert_eq!(gjson_query_matches(&q, &GjsonValue::String("y".to_string())), Some(false));
    assert_eq!(gjson_query_matches(&q, &GjsonValue::NotExist), Some(false));

    let q = gjson_parse_query(br#"#(name>"b")#"#).unwrap();
    assert_eq!(gjson_query_matches(&q, &GjsonValue::String("c".to_string())), Some(true));
    assert_eq!(gjson_query_matches(&q, &GjsonValue::String("a".to_string())), Some(false));

    let q = gjson_parse_query(br#"#(name%"D*")#"#).unwrap();
    assert_eq!(gjson_query_matches(&q, &GjsonValue::String("Dale".to_string())), Some(true));
    assert_eq!(gjson_query_matches(&q, &GjsonValue::String("Jane".to_string())), Some(false));

    let q = gjson_parse_query(b"#(age>45)#.x").unwrap();
    assert_eq!(gjson_query_matches(&q, &GjsonValue::Number("50".to_string())), None);
    assert_eq!(gjson_query_matches(&q, &GjsonValue::String("50".to_string())), Some(false));

    let q = gjson_parse_query(b"#(ok==true)#").unwrap();
    assert!(matches!(q.value, Some(GjsonValue::Boolean(true))));
    assert_eq!(gjson_query_matches(&q, &GjsonValue::Boolean(true)), Some(true));
    assert_eq!(gjson_query_matches(&q, &GjsonValue::Boolean(false)), Some(false));

    let q = gjson_parse_query(b"#(first)#").unwrap();
    assert_eq!(gjson_query_matches(&q, &GjsonValue::Null), Some(true));
}
