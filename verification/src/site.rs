//! The site walker: from a modelled source tree — the names of the regular
//! files and subdirectories of the source root, the names of the regular
//! files in each subdirectory, and the optional directive and header texts —
//! compute the complete generation plan: which files to copy where, and the
//! exact content and destination of every generated index page. The thin
//! binary around the library enumerates the directories, feeds this model in,
//! and carries the plan out.

use vstd::prelude::*;
use crate::directives::Function;
use crate::directives::StrMap;
use crate::directives::spec_entries;
use crate::render::all_under;
use crate::render::gen_head;
use crate::render::gen_link_list;
use crate::render::assemble_page;
use crate::render::spec_head;
use crate::render::spec_link_list;
use crate::render::spec_page;
use crate::strutil::spec_join;
use crate::strutil::spec_lines;
use crate::strutil::spec_ends_with;
use crate::strutil::join_path;
use crate::strutil::str_eq;
use crate::strutil::str_ends_with;
use crate::strutil::lemma_strip_join;

verus! {

/// The fixed name of the site-wide directive file under the source root.
pub open spec fn directive_file_name() -> Seq<char> {
    ("head.txt")@
}

/// The fixed name of the shared header fragment under the source root.
pub open spec fn header_file_name() -> Seq<char> {
    ("header.html")@
}

/// The fixed name of every generated page.
pub open spec fn index_file_name() -> Seq<char> {
    ("index.html")@
}

/// An immediate subdirectory of the source root, with the names of the
/// regular files it directly contains.
pub struct CategorySrc {
    pub name: String,
    pub files: Vec<String>,
}

/// The modelled source tree a generation run works on.
pub struct SourceTree {
    /// Names of the regular files directly under the source root.
    pub files: Vec<String>,
    /// The immediate subdirectories of the source root.
    pub categories: Vec<CategorySrc>,
    /// Content of the directive file, when it exists.
    pub directives: Option<String>,
    /// Content of the header fragment, when it exists.
    pub header: Option<String>,
}

/// One verbatim file copy: full source path to full target path.
pub struct CopyStep {
    pub src: String,
    pub dst: String,
}

impl DeepView for CopyStep {
    type V = (Seq<char>, Seq<char>);

    open spec fn deep_view(&self) -> (Seq<char>, Seq<char>) {
        (self.src@, self.dst@)
    }
}

/// One generated page: the directory that must exist, the full path of the
/// page, and its complete content.
pub struct PageStep {
    pub dir: String,
    pub path: String,
    pub content: String,
}

impl DeepView for PageStep {
    type V = (Seq<char>, Seq<char>, Seq<char>);

    open spec fn deep_view(&self) -> (Seq<char>, Seq<char>, Seq<char>) {
        (self.dir@, self.path@, self.content@)
    }
}

/// A complete generation run: the copies, the root index page, and one index
/// page per category.
pub struct SitePlan {
    pub copies: Vec<CopyStep>,
    pub root_page: PageStep,
    pub category_pages: Vec<PageStep>,
}

/// The two reserved names that are read, not copied.
pub open spec fn spec_is_reserved(name: Seq<char>) -> bool {
    name == directive_file_name() || name == header_file_name()
}

/// Whether `name` carries the `.html` extension: it ends with `.html` and has
/// at least one character before it.
pub open spec fn spec_is_page(name: Seq<char>) -> bool {
    name.len() > (".html")@.len() && spec_ends_with(name, (".html")@)
}

/// The copy steps for the root-level files: every non-reserved name, in
/// order, from its source path to its target path.
pub open spec fn spec_copies(
    files: Seq<Seq<char>>,
    src_root: Seq<char>,
    target_root: Seq<char>,
) -> Seq<(Seq<char>, Seq<char>)>
    decreases files.len(),
{
    if files.len() == 0 {
        seq![]
    } else {
        let prev = spec_copies(files.drop_last(), src_root, target_root);
        if spec_is_reserved(files.last()) {
            prev
        } else {
            prev.push(
                (spec_join(src_root, files.last()), spec_join(target_root, files.last())),
            )
        }
    }
}

/// The names with the `.html` extension, in order.
pub open spec fn spec_page_names(files: Seq<Seq<char>>) -> Seq<Seq<char>>
    decreases files.len(),
{
    if files.len() == 0 {
        seq![]
    } else {
        let prev = spec_page_names(files.drop_last());
        if spec_is_page(files.last()) {
            prev.push(files.last())
        } else {
            prev
        }
    }
}

/// The head-fragment entries of a run: the parsed directive text, or no
/// entries at all when the directive file is absent.
pub open spec fn spec_site_entries(directives: Option<Seq<char>>) -> Seq<(Seq<char>, Seq<char>)> {
    match directives {
        Some(t) => spec_entries(spec_lines(t)),
        None => seq![],
    }
}

impl SourceTree {
    /// The category names, in order.
    pub open spec fn category_names(&self) -> Seq<Seq<char>> {
        Seq::new(self.categories@.len(), |i: int| self.categories@[i].name@)
    }
}

/// The full paths the root link list is rendered over: one per category.
pub open spec fn spec_category_paths(names: Seq<Seq<char>>, src_root: Seq<char>) -> Seq<Seq<char>> {
    names.map_values(|name: Seq<char>| spec_join(src_root, name))
}

/// The full paths a category's link list is rendered over: one per page file.
pub open spec fn spec_category_page_paths(cat_path: Seq<char>, files: Seq<Seq<char>>) -> Seq<
    Seq<char>,
> {
    spec_page_names(files).map_values(|f: Seq<char>| spec_join(cat_path, f))
}

/// The page step of one category: its target directory, its index path, and
/// the assembled document listing its page files relative to the source root.
pub open spec fn spec_category_page(
    name: Seq<char>,
    files: Seq<Seq<char>>,
    src_root: Seq<char>,
    target_root: Seq<char>,
    entries: Seq<(Seq<char>, Seq<char>)>,
    header: Option<Seq<char>>,
) -> (Seq<char>, Seq<char>, Seq<char>) {
    let cat_dir = spec_join(target_root, name);
    (
        cat_dir,
        spec_join(cat_dir, index_file_name()),
        spec_page(
            spec_head(entries),
            header,
            spec_link_list(spec_category_page_paths(spec_join(src_root, name), files), src_root),
        ),
    )
}

/// Whether `name` is one of the two reserved file names.
pub fn is_reserved_name(name: &str) -> (r: bool)
    ensures
        r == spec_is_reserved(name@),
{
    str_eq(name, "head.txt") || str_eq(name, "header.html")
}

/// Whether `name` carries the `.html` extension.
pub fn is_page_name(name: &str) -> (r: bool)
    ensures
        r == spec_is_page(name@),
{
    let n: usize = name.unicode_len();
    proof {
        reveal_strlit(".html");
    }
    n > 5 && str_ends_with(name, ".html")
}

/// Compute the complete generation plan for a modelled source tree: the
/// verbatim copies of the non-reserved root files, the root index page over
/// the category list, and one index page per category over its `.html`
/// files, all sharing one head fragment (from the directive text, or minimal
/// when it is absent) and one optional header fragment.
pub fn plan_site(tree: &SourceTree, src_root: &String, target_root: &String) -> (r: SitePlan)
    ensures
        r.copies.deep_view() == spec_copies(tree.files.deep_view(), src_root@, target_root@),
        r.root_page.deep_view() == (
            target_root@,
            spec_join(target_root@, index_file_name()),
            spec_page(
                spec_head(spec_site_entries(tree.directives.deep_view())),
                tree.header.deep_view(),
                spec_link_list(spec_category_paths(tree.category_names(), src_root@), src_root@),
            ),
        ),
        r.category_pages@.len() == tree.categories@.len(),
        forall|i: int|
            0 <= i < tree.categories@.len() ==> r.category_pages@[i].deep_view()
                == spec_category_page(
                tree.categories@[i].name@,
                tree.categories@[i].files.deep_view(),
                src_root@,
                target_root@,
                spec_site_entries(tree.directives.deep_view()),
                tree.header.deep_view(),
            ),
{
    let ghost files_dv = tree.files.deep_view();
    let ghost entries_dv = spec_site_entries(tree.directives.deep_view());

    // The copies of the non-reserved root files.
    let mut copies: Vec<CopyStep> = Vec::new();
    let nf: usize = tree.files.len();
    let mut i: usize = 0;
    while i < nf
        invariant
            i <= nf,
            nf == tree.files.len(),
            files_dv == tree.files.deep_view(),
            copies.deep_view() == spec_copies(files_dv.take(i as int), src_root@, target_root@),
        decreases nf - i,
    {
        let ghost t0 = files_dv.take(i as int);
        let ghost t1 = files_dv.take(i as int + 1);
        proof {
            assert(t1.drop_last() =~= t0);
            assert(tree.files@[i as int]@ == files_dv[i as int]);
            assert(t1.last() == files_dv[i as int]);
        }
        let name = &tree.files[i];
        if !is_reserved_name(name.as_str()) {
            copies.push(
                CopyStep {
                    src: join_path(src_root.as_str(), name.as_str()),
                    dst: join_path(target_root.as_str(), name.as_str()),
                },
            );
        }
        proof {
            assert(copies.deep_view() =~= spec_copies(t1, src_root@, target_root@));
        }
        i = i + 1;
    }
    proof {
        assert(files_dv.take(nf as int) =~= files_dv);
    }

    // The shared head fragment: parsed directives, or the minimal head.
    let head_args: StrMap = match &tree.directives {
        Some(text) => Function::parse(text.as_str()).args,
        None => StrMap::new(),
    };
    proof {
        assert(head_args.entries() =~= entries_dv);
    }
    let head = gen_head(&head_args);

    // The root index page over the category list.
    let mut cat_paths: Vec<String> = Vec::new();
    let nc: usize = tree.categories.len();
    let mut i: usize = 0;
    while i < nc
        invariant
            i <= nc,
            nc == tree.categories.len(),
            cat_paths.deep_view() == spec_category_paths(
                tree.category_names().take(i as int),
                src_root@,
            ),
            all_under(cat_paths.deep_view(), src_root@),
        decreases nc - i,
    {
        let name = &tree.categories[i].name;
        let p = join_path(src_root.as_str(), name.as_str());
        let ghost old_dv = cat_paths.deep_view();
        proof {
            lemma_strip_join(src_root@, name@);
            assert(tree.category_names()[i as int] == name@);
        }
        cat_paths.push(p);
        proof {
            let new_dv = cat_paths.deep_view();
            assert(new_dv =~= old_dv.push(p@));
            let t1 = tree.category_names().take(i as int + 1);
            assert forall|k: int| 0 <= k < new_dv.len() implies new_dv[k] == spec_category_paths(
                t1,
                src_root@,
            )[k] by {
                assert(spec_category_paths(t1, src_root@)[k] == spec_join(src_root@, t1[k]));
                if k < i {
                    assert(old_dv[k] == spec_join(
                        src_root@,
                        tree.category_names().take(i as int)[k],
                    ));
                }
            }
            assert(new_dv =~= spec_category_paths(t1, src_root@));
            assert forall|k: int| 0 <= k < new_dv.len() implies crate::strutil::spec_strip_prefix(
                new_dv[k],
                src_root@,
            ) is Some by {
                if k < old_dv.len() {
                    assert(new_dv[k] == old_dv[k]);
                } else {
                    assert(new_dv[k] == p@);
                }
            }
            assert(all_under(new_dv, src_root@));
        }
        i = i + 1;
    }
    proof {
        assert(tree.category_names().take(nc as int) =~= tree.category_names());
    }
    let root_list = match gen_link_list(&cat_paths, src_root) {
        Ok(s) => s,
        Err(_) => {
            proof {
                assert(false);
            }
            String::new()
        },
    };
    let root_page = PageStep {
        dir: target_root.clone(),
        path: join_path(target_root.as_str(), "index.html"),
        content: assemble_page(head.as_str(), &tree.header, root_list.as_str()),
    };

    // One index page per category, over its `.html` files.
    let mut category_pages: Vec<PageStep> = Vec::new();
    let mut i: usize = 0;
    while i < nc
        invariant
            i <= nc,
            nc == tree.categories.len(),
            head@ == spec_head(entries_dv),
            entries_dv == spec_site_entries(tree.directives.deep_view()),
            category_pages@.len() == i,
            forall|k: int|
                0 <= k < i ==> category_pages@[k].deep_view() == spec_category_page(
                    tree.categories@[k].name@,
                    tree.categories@[k].files.deep_view(),
                    src_root@,
                    target_root@,
                    entries_dv,
                    tree.header.deep_view(),
                ),
        decreases nc - i,
    {
        let cat = &tree.categories[i];
        let ghost cfiles = cat.files.deep_view();
        let cat_path = join_path(src_root.as_str(), cat.name.as_str());

        let mut pages: Vec<String> = Vec::new();
        let np: usize = cat.files.len();
        let mut j: usize = 0;
        while j < np
            invariant
                j <= np,
                np == cat.files.len(),
                cfiles == cat.files.deep_view(),
                cat_path@ == spec_join(src_root@, cat.name@),
                pages.deep_view() == spec_category_page_paths(cat_path@, cfiles.take(j as int)),
                all_under(pages.deep_view(), src_root@),
            decreases np - j,
        {
            let ghost t0 = cfiles.take(j as int);
            let ghost t1 = cfiles.take(j as int + 1);
            proof {
                assert(t1.drop_last() =~= t0);
                assert(cat.files@[j as int]@ == cfiles[j as int]);
                assert(t1.last() == cfiles[j as int]);
            }
            let f = &cat.files[j];
            let ghost old_dv = pages.deep_view();
            if is_page_name(f.as_str()) {
                let p = join_path(cat_path.as_str(), f.as_str());
                proof {
                    assert(p@ =~= spec_join(src_root@, spec_join(cat.name@, f@)));
                    lemma_strip_join(src_root@, spec_join(cat.name@, f@));
                }
                pages.push(p);
                proof {
                    let new_dv = pages.deep_view();
                    assert(new_dv =~= old_dv.push(p@));
                    assert(spec_page_names(t1) =~= spec_page_names(t0).push(f@));
                    let m1 = spec_category_page_paths(cat_path@, t1);
                    assert forall|k: int| 0 <= k < new_dv.len() implies new_dv[k] == m1[k] by {
                        assert(m1[k] == spec_join(cat_path@, spec_page_names(t1)[k]));
                        if k < old_dv.len() {
                            assert(old_dv[k] == spec_join(cat_path@, spec_page_names(t0)[k]));
                            assert(spec_page_names(t1)[k] == spec_page_names(t0)[k]);
                        } else {
                            assert(spec_page_names(t1)[k] == f@);
                            assert(new_dv[k] == p@);
                        }
                    }
                    assert(new_dv =~= m1);
                    assert forall|k: int|
                        0 <= k < new_dv.len() implies crate::strutil::spec_strip_prefix(
                        new_dv[k],
                        src_root@,
                    ) is Some by {
                        if k < old_dv.len() {
                            assert(new_dv[k] == old_dv[k]);
                        } else {
                            assert(new_dv[k] == p@);
                        }
                    }
                    assert(all_under(new_dv, src_root@));
                }
            } else {
                proof {
                    assert(spec_page_names(t1) =~= spec_page_names(t0));
                    assert(pages.deep_view() =~= spec_category_page_paths(cat_path@, t1));
                }
            }
            j = j + 1;
        }
        proof {
            assert(cfiles.take(np as int) =~= cfiles);
        }

        let list = match gen_link_list(&pages, src_root) {
            Ok(s) => s,
            Err(_) => {
                proof {
                    assert(false);
                }
                String::new()
            },
        };
        let cat_dir = join_path(target_root.as_str(), cat.name.as_str());
        let page_path = join_path(cat_dir.as_str(), "index.html");
        let content = assemble_page(head.as_str(), &tree.header, list.as_str());
        category_pages.push(PageStep { dir: cat_dir, path: page_path, content });
        i = i + 1;
    }

    SitePlan { copies, root_page, category_pages }
}

} // verus!
