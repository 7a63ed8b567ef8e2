use sitegen::site::CategorySrc;
use sitegen::site::SourceTree;
use sitegen::site::plan_site;

const META: &str =
    "<meta charset=\"UTF-8\"/>\n<meta name=\"viewport\" content=\"width=device-width, initial-scale=1.0\"/>\n";

fn demo_tree() -> SourceTree {
    SourceTree {
        files: vec![
            String::from("head.txt"),
            String::from("header.html"),
            String::from("about.txt"),
        ],
        categories: vec![CategorySrc {
            name: String::from("blog"),
            files: vec![String::from("post1.html"), String::from("post2.html")],
        }],
        directives: Some(String::from("#title Demo")),
        header: Some(String::from("<nav>Home</nav>")),
    }
}

#[test]
fn end_to_end_demo_site() {
    let plan = plan_site(&demo_tree(), &String::from("/src"), &String::from("/out"));

    // The ordinary file is copied; the two reserved files are not.
    assert_eq!(plan.copies.len(), 1);
    assert_eq!(plan.copies[0].src, "/src/about.txt");
    assert_eq!(plan.copies[0].dst, "/out/about.txt");

    // The root index lists the one category.
    let head = format!("<head>\n<title>Demo</title>\n{}</head>\n", META);
    assert_eq!(plan.root_page.dir, "/out");
    assert_eq!(plan.root_page.path, "/out/index.html");
    assert_eq!(
        plan.root_page.content,
        format!(
            "<!DOCTYPE html>\n<html>\n{}<body>\n<nav>Home</nav>\
             <div class=\"link_list\">\n<p><h3><a href=\"/blog\">blog</a></h3></p>\n</div>\n\
             </body>\n</html>\n",
            head
        )
    );

    // The category index lists its page files, with the same head and header.
    assert_eq!(plan.category_pages.len(), 1);
    assert_eq!(plan.category_pages[0].dir, "/out/blog");
    assert_eq!(plan.category_pages[0].path, "/out/blog/index.html");
    assert_eq!(
        plan.category_pages[0].content,
        format!(
            "<!DOCTYPE html>\n<html>\n{}<body>\n<nav>Home</nav>\
             <div class=\"link_list\">\n\
             <p><h3><a href=\"/blog/post1.html\">post1.html</a></h3></p>\n\
             <p><h3><a href=\"/blog/post2.html\">post2.html</a></h3></p>\n\
             </div>\n</body>\n</html>\n",
            head
        )
    );
}

#[test]
fn absent_directives_and_header_yield_minimal_pages() {
    let tree = SourceTree {
        files: vec![String::from("a.txt")],
        categories: Vec::new(),
        directives: None,
        header: None,
    };
    let plan = plan_site(&tree, &String::from("/src"), &String::from("/out"));
    assert_eq!(plan.copies.len(), 1);
    assert_eq!(
        plan.root_page.content,
        format!(
            "<!DOCTYPE html>\n<html>\n<head>\n{}</head>\n<body>\n\
             <div class=\"link_list\">\n</div>\n</body>\n</html>\n",
            META
        )
    );
    assert!(!plan.root_page.content.contains("<title>"));
    assert!(!plan.root_page.content.contains("<nav>"));
}

#[test]
fn only_html_files_are_listed_as_pages() {
    let tree = SourceTree {
        files: Vec::new(),
        categories: vec![CategorySrc {
            name: String::from("blog"),
            files: vec![
                String::from("x.html"),
                String::from("notes.txt"),
                String::from(".html"),
                String::from("html"),
            ],
        }],
        directives: None,
        header: None,
    };
    let plan = plan_site(&tree, &String::from("/src"), &String::from("/out"));
    let content = &plan.category_pages[0].content;
    assert!(content.contains("<a href=\"/blog/x.html\">x.html</a>"));
    assert!(!content.contains("notes.txt"));
    assert!(!content.contains("href=\"/blog/.html\""));
    assert_eq!(content.matches("<a href=").count(), 1);
}

#[test]
fn every_category_gets_its_own_index() {
    let tree = SourceTree {
        files: Vec::new(),
        categories: vec![
            CategorySrc { name: String::from("one"), files: Vec::new() },
            CategorySrc { name: String::from("two"), files: Vec::new() },
        ],
        directives: None,
        header: None,
    };
    let plan = plan_site(&tree, &String::from("/s"), &String::from("/t"));
    assert_eq!(plan.category_pages.len(), 2);
    assert_eq!(plan.category_pages[0].path, "/t/one/index.html");
    assert_eq!(plan.category_pages[1].path, "/t/two/index.html");
    assert!(plan.root_page.content.contains("<a href=\"/one\">one</a>"));
    assert!(plan.root_page.content.contains("<a href=\"/two\">two</a>"));
}
