//! HTML rendering: the head fragment from a directive mapping, the link-list
//! fragment from a list of paths, and the full page document. Each function's
//! output is pinned exactly by a spec function over `Seq<char>` views.

use vstd::prelude::*;
use crate::directives::StrMap;
use crate::strutil::spec_strip_prefix;
use crate::strutil::spec_file_name;
use crate::strutil::strip_prefix;
use crate::strutil::file_name;
use crate::strutil::str_eq;

verus! {

/// The error of a generation step: a listed path is not a descendant of the
/// root it should be rendered relative to.
#[derive(Debug, Clone, Copy, PartialEq, Eq, Structural)]
pub enum SiteError {
    NotUnderRoot,
}

/// What one mapping entry contributes to the head: a title element for the
/// key `title`, a stylesheet link for the key `style`, nothing otherwise.
pub open spec fn spec_head_entry(k: Seq<char>, v: Seq<char>) -> Seq<char> {
    if k == ("title")@ {
        ("<title>")@ + v + ("</title>\n")@
    } else if k == ("style")@ {
        ("<link rel=\"stylesheet\" href=\"")@ + v + ("\"/>\n")@
    } else {
        Seq::empty()
    }
}

/// The concatenated contributions of the mapping entries, in order.
pub open spec fn spec_head_items(entries: Seq<(Seq<char>, Seq<char>)>) -> Seq<char>
    decreases entries.len(),
{
    if entries.len() == 0 {
        Seq::empty()
    } else {
        spec_head_items(entries.drop_last()) + spec_head_entry(
            entries.last().0,
            entries.last().1,
        )
    }
}

/// The whole head fragment: opening tag, the entries' contributions, the two
/// fixed meta elements, closing tag.
pub open spec fn spec_head(entries: Seq<(Seq<char>, Seq<char>)>) -> Seq<char> {
    ("<head>\n")@ + spec_head_items(entries) + ("<meta charset=\"UTF-8\"/>\n")@ + (
    "<meta name=\"viewport\" content=\"width=device-width, initial-scale=1.0\"/>\n")@ + (
    "</head>\n")@
}

/// Render the head fragment of a directive mapping.
pub fn gen_head(args: &StrMap) -> (r: String)
    ensures
        r@ == spec_head(args.entries()),
{
    let mut head = String::new();
    head.append("<head>\n");
    let n: usize = args.len();
    let mut i: usize = 0;
    while i < n
        invariant
            i <= n,
            n == args.entries().len(),
            head@ == ("<head>\n")@ + spec_head_items(args.entries().take(i as int)),
        decreases n - i,
    {
        let ghost t0 = args.entries().take(i as int);
        let ghost t1 = args.entries().take(i as int + 1);
        proof {
            assert(t1.drop_last() =~= t0);
            assert(t1.last() == args.entries()[i as int]);
        }
        let param = args.key_at(i);
        let arg = args.value_at(i);
        if str_eq(param.as_str(), "title") {
            head.append("<title>");
            head.append(arg.as_str());
            head.append("</title>\n");
        } else if str_eq(param.as_str(), "style") {
            head.append("<link rel=\"stylesheet\" href=\"");
            head.append(arg.as_str());
            head.append("\"/>\n");
        }
        proof {
            assert(head@ =~= ("<head>\n")@ + spec_head_items(t1));
        }
        i = i + 1;
    }
    head.append("<meta charset=\"UTF-8\"/>\n");
    head.append("<meta name=\"viewport\" content=\"width=device-width, initial-scale=1.0\"/>\n");
    head.append("</head>\n");
    proof {
        assert(args.entries().take(n as int) =~= args.entries());
        assert(head@ =~= spec_head(args.entries()));
    }
    head
}

/// Every path in `paths` is a descendant of `root`.
pub open spec fn all_under(paths: Seq<Seq<char>>, root: Seq<char>) -> bool {
    forall|i: int| 0 <= i < paths.len() ==> spec_strip_prefix(paths[i], root) is Some
}

/// One anchor of the link list: the root-relative location as the reference,
/// the final path component as the visible text.
pub open spec fn spec_link_item(rest: Seq<char>, name: Seq<char>) -> Seq<char> {
    ("<p><h3><a href=\"/")@ + rest + ("\">")@ + name + ("</a></h3></p>\n")@
}

/// The concatenated anchors for `paths`, in the supplied order.
pub open spec fn spec_link_items(paths: Seq<Seq<char>>, root: Seq<char>) -> Seq<char>
    decreases paths.len(),
{
    if paths.len() == 0 {
        Seq::empty()
    } else {
        spec_link_items(paths.drop_last(), root) + (match spec_strip_prefix(
            paths.last(),
            root,
        ) {
            Some(rest) => spec_link_item(rest, spec_file_name(paths.last())),
            None => Seq::empty(),
        })
    }
}

/// The whole link-list fragment, wrapped in its container element.
pub open spec fn spec_link_list(paths: Seq<Seq<char>>, root: Seq<char>) -> Seq<char> {
    ("<div class=\"link_list\">\n")@ + spec_link_items(paths, root) + ("</div>\n")@
}

/// Render the link-list fragment for `paths` relative to `strip_path`. Fails
/// exactly when some path is not a descendant of `strip_path`.
pub fn gen_link_list(paths: &Vec<String>, strip_path: &String) -> (r: Result<String, SiteError>)
    ensures
        match r {
            Ok(s) => all_under(paths.deep_view(), strip_path@) && s@ == spec_link_list(
                paths.deep_view(),
                strip_path@,
            ),
            Err(e) => !all_under(paths.deep_view(), strip_path@) && e == SiteError::NotUnderRoot,
        },
{
    let ghost ps = paths.deep_view();
    let mut html = String::new();
    html.append("<div class=\"link_list\">\n");
    let n: usize = paths.len();
    let mut i: usize = 0;
    while i < n
        invariant
            i <= n,
            n == paths.len(),
            ps == paths.deep_view(),
            all_under(ps.take(i as int), strip_path@),
            html@ == ("<div class=\"link_list\">\n")@ + spec_link_items(
                ps.take(i as int),
                strip_path@,
            ),
        decreases n - i,
    {
        let ghost t0 = ps.take(i as int);
        let ghost t1 = ps.take(i as int + 1);
        proof {
            assert(t1.drop_last() =~= t0);
            assert(paths@[i as int]@ == ps[i as int]);
            assert(t1.last() == ps[i as int]);
        }
        match strip_prefix(paths[i].as_str(), strip_path.as_str()) {
            Some(rest) => {
                html.append("<p><h3><a href=\"/");
                html.append(rest);
                html.append("\">");
                let name = file_name(paths[i].as_str());
                html.append(name.as_str());
                html.append("</a></h3></p>\n");
                proof {
                    assert forall|j: int| 0 <= j < t1.len() implies spec_strip_prefix(
                        t1[j],
                        strip_path@,
                    ) is Some by {
                        if j < i {
                            assert(t0[j] == t1[j]);
                        }
                    }
                    assert(html@ =~= ("<div class=\"link_list\">\n")@ + spec_link_items(
                        t1,
                        strip_path@,
                    ));
                }
            },
            None => {
                proof {
                    assert(spec_strip_prefix(ps[i as int], strip_path@) is None);
                }
                return Err(SiteError::NotUnderRoot);
            },
        }
        i = i + 1;
    }
    html.append("</div>\n");
    proof {
        assert(ps.take(n as int) =~= ps);
        assert(html@ =~= spec_link_list(ps, strip_path@));
    }
    Ok(html)
}

/// The complete document: doctype, root element, the head fragment verbatim,
/// the body with the header fragment (if any) and the contents verbatim.
pub open spec fn spec_page(head: Seq<char>, header: Option<Seq<char>>, contents: Seq<char>) -> Seq<
    char,
> {
    ("<!DOCTYPE html>\n<html>\n")@ + head + ("<body>\n")@ + (match header {
        Some(h) => h,
        None => Seq::empty(),
    }) + contents + ("</body>\n</html>\n")@
}

/// Assemble a full page document from its fragments.
pub fn assemble_page(head: &str, header: &Option<String>, contents: &str) -> (r: String)
    ensures
        r@ == spec_page(head@, header.deep_view(), contents@),
{
    let mut page = String::new();
    page.append("<!DOCTYPE html>\n<html>\n");
    page.append(head);
    page.append("<body>\n");
    match header {
        Some(h) => page.append(h.as_str()),
        None => {},
    }
    page.append(contents);
    page.append("</body>\n</html>\n");
    proof {
        assert(page@ =~= spec_page(head@, header.deep_view(), contents@));
    }
    page
}

} // verus!
