use sitegen::directives::StrMap;
use sitegen::render::SiteError;
use sitegen::render::assemble_page;
use sitegen::render::gen_head;
use sitegen::render::gen_link_list;

const META: &str =
    "<meta charset=\"UTF-8\"/>\n<meta name=\"viewport\" content=\"width=device-width, initial-scale=1.0\"/>\n";

#[test]
fn head_of_empty_mapping_is_minimal() {
    let head = gen_head(&StrMap::new());
    assert_eq!(head, format!("<head>\n{}</head>\n", META));
    assert!(!head.contains("<title>"));
    assert!(!head.contains("stylesheet"));
}

#[test]
fn head_with_title_and_style() {
    let mut args = StrMap::new();
    args.insert(String::from("title"), String::from("Home"));
    args.insert(String::from("style"), String::from("main.css"));
    let head = gen_head(&args);
    assert_eq!(
        head,
        format!(
            "<head>\n<title>Home</title>\n<link rel=\"stylesheet\" href=\"main.css\"/>\n{}</head>\n",
            META
        )
    );
    assert_eq!(head.matches("<title>").count(), 1);
    assert_eq!(head.matches("stylesheet").count(), 1);
    assert_eq!(head.matches("<meta").count(), 2);
}

#[test]
fn head_ignores_unrecognized_keys() {
    let mut args = StrMap::new();
    args.insert(String::from("author"), String::from("Someone"));
    let head = gen_head(&args);
    assert_eq!(head, format!("<head>\n{}</head>\n", META));
}

#[test]
fn head_overridden_title_appears_once() {
    let mut args = StrMap::new();
    args.insert(String::from("title"), String::from("One"));
    args.insert(String::from("title"), String::from("Two"));
    let head = gen_head(&args);
    assert_eq!(head.matches("<title>").count(), 1);
    assert!(head.contains("<title>Two</title>\n"));
}

#[test]
fn link_list_in_supplied_order() {
    let paths = vec![String::from("/src/a"), String::from("/src/sub")];
    let html = gen_link_list(&paths, &String::from("/src")).unwrap();
    assert_eq!(
        html,
        "<div class=\"link_list\">\n\
         <p><h3><a href=\"/a\">a</a></h3></p>\n\
         <p><h3><a href=\"/sub\">sub</a></h3></p>\n\
         </div>\n"
    );
}

#[test]
fn link_list_of_nested_path_keeps_final_component_as_text() {
    let paths = vec![String::from("/src/blog/post1.html")];
    let html = gen_link_list(&paths, &String::from("/src")).unwrap();
    assert!(html.contains("<a href=\"/blog/post1.html\">post1.html</a>"));
}

#[test]
fn link_list_empty() {
    let html = gen_link_list(&Vec::new(), &String::from("/src")).unwrap();
    assert_eq!(html, "<div class=\"link_list\">\n</div>\n");
}

#[test]
fn link_list_fails_outside_root() {
    let paths = vec![String::from("/src/a"), String::from("/other/b")];
    let r = gen_link_list(&paths, &String::from("/src"));
    assert_eq!(r, Err(SiteError::NotUnderRoot));
}

#[test]
fn link_list_fails_on_root_itself() {
    let paths = vec![String::from("/src")];
    let r = gen_link_list(&paths, &String::from("/src"));
    assert_eq!(r, Err(SiteError::NotUnderRoot));
}

#[test]
fn page_with_header() {
    let page = assemble_page(
        "<head></head>\n",
        &Some(String::from("<nav>Home</nav>")),
        "body text\n",
    );
    assert_eq!(
        page,
        "<!DOCTYPE html>\n<html>\n<head></head>\n<body>\n<nav>Home</nav>body text\n</body>\n</html>\n"
    );
}

#[test]
fn page_without_header_has_no_placeholder() {
    let page = assemble_page("<head></head>\n", &None, "body text\n");
    assert_eq!(
        page,
        "<!DOCTYPE html>\n<html>\n<head></head>\n<body>\nbody text\n</body>\n</html>\n"
    );
}
