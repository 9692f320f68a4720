use ajson::path::parser::parse;
use ajson::unescape::unescape;

#[test]
fn it_works() {
    assert_eq!(2 + 2, 4);
}

#[test]
fn parser_test_invalid_path() {
    parse("friends.{}first]".as_bytes()).unwrap();
}

#[test]
#[allow(unused_variables)]
fn test_fn_parse_from_utf8() {
    let v = r#"name"#.as_bytes();
    let p = parse(v);

    let v = r#"#(last=="Murphy")#.first"#.as_bytes();
    let p = parse(v);

    let v = r#"friends.#(first!%"D*")#.last"#.as_bytes();
    let p = parse(v);

    let v = r#"c?ildren.0"#.as_bytes();
    let p = parse(v);

    let v = r#"#(sub_item>7)#.title"#.as_bytes();
    let p = parse(v);

    let v = r#"friends.#(nets."#.as_bytes();
    let p = parse(v);

    let v = r#"friends.#()#"#.as_bytes();
    let p = parse(v);

    let v = "widget.[window,name].#.name".as_bytes();
    let p = parse(v);

    let v = r#"widget.menu.#(title="help")#.title"#.as_bytes();
    let p = parse(v);
}

#[test]
#[allow(unused_variables)]
fn test_fn_parse() {
    let v = r#"name"#.as_bytes();
    let p = parse(v);

    let v = r#"#(last=="Murphy")#.first"#.as_bytes();
    let p = parse(v);

    let v = r#"friends.#(first!%"D*")#.last"#.as_bytes();
    let p = parse(v);

    let v = r#"c?ildren.0"#.as_bytes();
    let p = parse(v);

    let v = r#"#(sub_item>7)#.title"#.as_bytes();
    let p = parse(v);
}

#[test]
fn test_unescape() {
    println!(
        "{}",
        unescape(r#"\ud83d\udd13, \ud83c\udfc3 OK: \u2764\ufe0f"#.as_bytes())
    );
}

#[test]
fn test_path_v2_parse() {
    for s in vec![
        "widget.window.name",
        "widget.image.hOffset",
        "widget.text.onMouseUp",
        "widget.debug",
        "widget.menu.#(sub_item>7)#.title",
        "widget.menu.#(nets.#(==7))#.title",
    ] {
        let path = ajson::path_v2::parse(s.as_bytes());
        println!("{:?}", path);
    }
}
