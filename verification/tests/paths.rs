use sitegen::strutil::file_name;
use sitegen::strutil::join_path;
use sitegen::strutil::split_lines;
use sitegen::strutil::strip_prefix;

#[test]
fn strip_prefix_of_descendant() {
    assert_eq!(strip_prefix("/src/a", "/src"), Some("a"));
    assert_eq!(strip_prefix("/src/blog/post1.html", "/src"), Some("blog/post1.html"));
}

#[test]
fn strip_prefix_rejects_non_descendants() {
    assert_eq!(strip_prefix("/other/a", "/src"), None);
    assert_eq!(strip_prefix("/src", "/src"), None);
    assert_eq!(strip_prefix("/srcx/a", "/src"), None);
}

#[test]
fn file_name_is_final_component() {
    assert_eq!(file_name("/src/blog/post1.html"), "post1.html");
    assert_eq!(file_name("/src"), "src");
    assert_eq!(file_name("plain"), "plain");
}

#[test]
fn join_then_strip_round_trip() {
    let joined = join_path("/src", "blog");
    assert_eq!(joined, "/src/blog");
    assert_eq!(strip_prefix(&joined, "/src"), Some("blog"));
}

#[test]
fn split_lines_on_newlines() {
    assert_eq!(split_lines("a\nb\nc"), vec!["a", "b", "c"]);
    assert_eq!(split_lines("a\nb\n"), vec!["a", "b"]);
    assert_eq!(split_lines(""), Vec::<String>::new());
    assert_eq!(split_lines("\n"), vec![""]);
    assert_eq!(split_lines("a\r\nb"), vec!["a", "b"]);
    assert_eq!(split_lines("tail\r"), vec!["tail\r"]);
}
