use sitegen::directives::Function;

#[test]
fn nonqualifying_lines_yield_no_entry() {
    let f = Function::parse("no marker line\n#nospace\n x y\n\n# \n");
    // "# " has no text after its space-split key, but the key is "" with value "".
    // Lines without the marker or without a space contribute nothing.
    assert!(f.args.get("no").is_none());
    assert!(f.args.get("nospace").is_none());
    assert!(f.args.get("x").is_none());
    assert_eq!(f.args.get(""), Some(String::new()));
}

#[test]
fn marker_without_space_is_skipped() {
    let f = Function::parse("#nospace\n#alsonospace");
    assert_eq!(f.args.len(), 0);
    assert!(f.args.get("nospace").is_none());
    assert!(f.args.get("alsonospace").is_none());
}

#[test]
fn single_directive_yields_entry() {
    let f = Function::parse("#title My Home Page");
    assert_eq!(f.args.get("title"), Some(String::from("My Home Page")));
}

#[test]
fn value_may_contain_spaces() {
    let f = Function::parse("#style a main stylesheet.css");
    assert_eq!(f.args.get("style"), Some(String::from("a main stylesheet.css")));
}

#[test]
fn repeated_key_last_occurrence_wins() {
    let f = Function::parse("#title One\n#title Two\n#title Three");
    assert_eq!(f.args.get("title"), Some(String::from("Three")));
    assert_eq!(f.args.len(), 1);
}

#[test]
fn unrecognized_keys_are_retained() {
    let f = Function::parse("#author Someone\n#title T");
    assert_eq!(f.args.get("author"), Some(String::from("Someone")));
    assert_eq!(f.args.get("title"), Some(String::from("T")));
}

#[test]
fn name_is_first_directive_key() {
    let f = Function::parse("junk line\n#style a.css\n#title T");
    assert_eq!(f.name, String::from("style"));
}

#[test]
fn name_is_empty_without_directives() {
    let f = Function::parse("nothing here");
    assert_eq!(f.name, String::new());
}

#[test]
fn carriage_return_before_newline_is_stripped() {
    let f = Function::parse("#title Demo\r\n#style m.css\r\n");
    assert_eq!(f.args.get("title"), Some(String::from("Demo")));
    assert_eq!(f.args.get("style"), Some(String::from("m.css")));
}

#[test]
fn parse_line_directive() {
    let r = Function::parse_line("#key some value");
    assert_eq!(r, Some((String::from("key"), String::from("some value"))));
}

#[test]
fn parse_line_rejects_non_directives() {
    assert_eq!(Function::parse_line(""), None);
    assert_eq!(Function::parse_line("#nospace"), None);
    assert_eq!(Function::parse_line("no marker"), None);
    assert_eq!(Function::parse_line(" #not first"), None);
}
