//! What holds of every package document and every table of contents.

use vstd::prelude::*;
use crate::epub::{
    book_opened, element_text, entry_text, has_word, nav_titles, ncx_titles, nodes_read,
    package_of, package_path, point_href, point_title, spine_of, spine_titled, toc_from, toc_of,
    SpineView,
};
use crate::gather::{gathers, is_first, is_last, lemma_first, lemma_gather, lemma_last};
use crate::paths::{directory_of, normalized};
use crate::text::trim;
use crate::xml::{find_named, parsed_xml, raw_text, subtree_end, NodeKind, NodeView};

verus! {

// ---------------------------------------------------------------------------
// The package document
// ---------------------------------------------------------------------------
/// What an element says: all the text below it without white space at its ends, if
/// there is any.
pub open spec fn said(d: Seq<NodeView>, k: int) -> Option<Seq<char>> {
    let t = trim(raw_text(d, k, subtree_end(d, k, d.len() as int)));
    if t.len() > 0 {
        Some(t)
    } else {
        None
    }
}

/// What the elements of a name say.
pub open spec fn said_by(d: Seq<NodeView>, name: Seq<char>) -> spec_fn(int) -> Option<Seq<char>> {
    |k: int|
        if d[k].kind == NodeKind::Element && d[k].name == name {
            said(d, k)
        } else {
            None
        }
}

/// The chapters in reading order, as the spine names them: all but those outside
/// the reading order.
pub open spec fn read_by(d: Seq<NodeView>) -> spec_fn(int) -> Option<Seq<char>> {
    |k: int|
        if d[k].kind == NodeKind::Element && d[k].name == "itemref"@ && d[k].attribute("linear"@)
            != Some("no"@) {
            d[k].attribute("idref"@)
        } else {
            None
        }
}

/// An entry of the manifest that names a file.
pub open spec fn is_entry(n: NodeView) -> bool {
    n.kind == NodeKind::Element && n.name == "item"@ && n.attribute("id"@) is Some && n.attribute(
        "href"@,
    ) is Some
}

/// The file of an entry.
pub open spec fn file_by(d: Seq<NodeView>, id: Seq<char>) -> spec_fn(int) -> Option<Seq<char>> {
    |k: int|
        if is_entry(d[k]) && d[k].attribute("id"@) == Some(id) {
            d[k].attribute("href"@)
        } else {
            None
        }
}

/// The navigation document.
pub open spec fn nav_by(d: Seq<NodeView>) -> spec_fn(int) -> Option<Seq<char>> {
    |k: int|
        if is_entry(d[k]) && (d[k].attribute("properties"@) matches Some(s) && has_word(
            s,
            "nav"@,
        )) {
            d[k].attribute("href"@)
        } else {
            None
        }
}

/// The NCX document.
pub open spec fn ncx_by(d: Seq<NodeView>) -> spec_fn(int) -> Option<Seq<char>> {
    |k: int|
        if is_entry(d[k]) && d[k].attribute("media-type"@) == Some("application/x-dtbncx+xml"@) {
            d[k].attribute("href"@)
        } else {
            None
        }
}

/// What the spine says of the NCX document.
pub open spec fn toc_by(d: Seq<NodeView>) -> spec_fn(int) -> Option<Option<Seq<char>>> {
    |k: int|
        if d[k].kind == NodeKind::Element && d[k].name == "spine"@ {
            Some(d[k].attribute("toc"@))
        } else {
            None
        }
}

/// What a map holds under a key.
pub open spec fn under(m: Map<Seq<char>, Seq<char>>, key: Seq<char>) -> Option<Seq<char>> {
    if m.contains_key(key) {
        Some(m[key])
    } else {
        None
    }
}

proof fn lemma_package_names()
    ensures
        "title"@.len() == 5 && "title"@[0] == 't',
        "spine"@.len() == 5 && "spine"@[0] == 's',
        "creator"@.len() == 7 && "creator"@[0] == 'c',
        "itemref"@.len() == 7 && "itemref"@[0] == 'i',
        "language"@.len() == 8,
        "identifier"@.len() == 10,
        "item"@.len() == 4,
{
    reveal_strlit("title");
    reveal_strlit("spine");
    reveal_strlit("creator");
    reveal_strlit("itemref");
    reveal_strlit("language");
    reveal_strlit("identifier");
    reveal_strlit("item");
}

/// The first `n` nodes: where the authors and where the chapters come from.
#[verifier::rlimit(40)]
proof fn lemma_read(d: Seq<NodeView>, n: int, id: Seq<char>) -> (at: (Seq<int>, Seq<int>))
    requires
        0 <= n <= d.len(),
    ensures
        ({
            let r = nodes_read(d, n);
            let p = r.package;
            &&& is_first(p.metadata.title, n, said_by(d, "title"@))
            &&& is_first(p.metadata.language, n, said_by(d, "language"@))
            &&& is_first(p.metadata.identifier, n, said_by(d, "identifier"@))
            &&& gathers(at.0, p.metadata.authors, n, said_by(d, "creator"@))
            &&& gathers(at.1, p.spine, n, read_by(d))
            &&& is_last(under(p.manifest, id), n, file_by(d, id))
            &&& is_last(p.nav_href, n, nav_by(d))
            &&& is_last(p.ncx_href, n, ncx_by(d))
            &&& exists|toc: Option<Option<Seq<char>>>| #[trigger]
                is_last(toc, n, toc_by(d)) && r.toc_id == (match toc {
                    Some(t) => t,
                    None => None,
                })
        }),
    decreases n,
{
    let r = nodes_read(d, n);
    if n == 0 {
        assert(is_last(None::<Option<Seq<char>>>, 0, toc_by(d)));
        (Seq::empty(), Seq::empty())
    } else {
        let k = n - 1;
        let b = nodes_read(d, k);
        let q = b.package;
        let before = lemma_read(d, k, id);
        lemma_package_names();
        let e = d[k];
        assert(element_text(d, k) == said(d, k));
        lemma_first(q.metadata.title, k, said_by(d, "title"@));
        lemma_first(q.metadata.language, k, said_by(d, "language"@));
        lemma_first(q.metadata.identifier, k, said_by(d, "identifier"@));
        let a = lemma_gather(before.0, q.metadata.authors, k, said_by(d, "creator"@));
        let s = lemma_gather(before.1, q.spine, k, read_by(d));
        lemma_last(under(q.manifest, id), k, file_by(d, id));
        lemma_last(q.nav_href, k, nav_by(d));
        lemma_last(q.ncx_href, k, ncx_by(d));
        let toc = choose|toc: Option<Option<Seq<char>>>| #[trigger]
            is_last(toc, k, toc_by(d)) && b.toc_id == (match toc {
                Some(t) => t,
                None => None,
            });
        lemma_last(toc, k, toc_by(d));
        let next = if toc_by(d)(k) is Some {
            toc_by(d)(k)
        } else {
            toc
        };
        assert(is_last(next, n, toc_by(d)));
        (a, s)
    }
}

/// The title, the language and the identifier of a book are what the first element
/// of that name says that says anything.
pub proof fn the_first_title_counts(d: Seq<NodeView>)
    ensures
        is_first(package_of(d).metadata.title, d.len() as int, said_by(d, "title"@)),
        is_first(package_of(d).metadata.language, d.len() as int, said_by(d, "language"@)),
        is_first(package_of(d).metadata.identifier, d.len() as int, said_by(d, "identifier"@)),
{
    let _ = lemma_read(d, d.len() as int, Seq::empty());
}

/// Every author who is named is listed, in the order of the document.
pub proof fn every_author_is_listed(d: Seq<NodeView>)
    ensures
        exists|at: Seq<int>| #[trigger]
            gathers(
                at,
                package_of(d).metadata.authors,
                d.len() as int,
                said_by(d, "creator"@),
            ),
{
    let at = lemma_read(d, d.len() as int, Seq::empty());
    assert(gathers(
        at.0,
        package_of(d).metadata.authors,
        d.len() as int,
        said_by(d, "creator"@),
    ));
}

/// Every chapter of the reading order is listed, in that order, and none that the
/// document keeps out of it.
pub proof fn the_spine_is_the_reading_order(d: Seq<NodeView>)
    ensures
        exists|at: Seq<int>| #[trigger]
            gathers(at, package_of(d).spine, d.len() as int, read_by(d)),
{
    let at = lemma_read(d, d.len() as int, Seq::empty());
    assert(gathers(at.1, package_of(d).spine, d.len() as int, read_by(d)));
}

/// The manifest knows every entry by its id; of two with one id the last counts.
pub proof fn the_manifest_knows_every_file(d: Seq<NodeView>, id: Seq<char>)
    ensures
        is_last(under(package_of(d).manifest, id), d.len() as int, file_by(d, id)),
{
    let _ = lemma_read(d, d.len() as int, id);
}

/// The navigation document is the entry marked as such. The NCX document is the
/// entry of that type, or else the one that the spine names.
pub proof fn navigation_is_found(d: Seq<NodeView>)
    ensures
        is_last(package_of(d).nav_href, d.len() as int, nav_by(d)),
        (exists|k: int| 0 <= k < d.len() && (#[trigger] ncx_by(d)(k)) is Some) ==> is_last(
            package_of(d).ncx_href,
            d.len() as int,
            ncx_by(d),
        ),
        !(exists|k: int| 0 <= k < d.len() && (#[trigger] ncx_by(d)(k)) is Some) ==> exists|
            toc: Option<Option<Seq<char>>>,
        | #[trigger]
            is_last(toc, d.len() as int, toc_by(d)) && package_of(d).ncx_href == (match toc {
                Some(Some(id)) => under(package_of(d).manifest, id),
                _ => None,
            }),
{
    let n = d.len() as int;
    let _ = lemma_read(d, n, Seq::empty());
    let r = nodes_read(d, n);
    let toc = choose|toc: Option<Option<Seq<char>>>| #[trigger]
        is_last(toc, n, toc_by(d)) && r.toc_id == (match toc {
            Some(t) => t,
            None => None,
        });
    if r.package.ncx_href is None {
        assert(forall|j: int| 0 <= j < n ==> (#[trigger] ncx_by(d)(j)) is None);
    }
    assert(is_last(toc, n, toc_by(d)));
}

/// A chapter of the spine, if the manifest knows it.
pub open spec fn chapter_by(
    idrefs: Seq<Seq<char>>,
    manifest: Map<Seq<char>, Seq<char>>,
    root: Seq<char>,
) -> spec_fn(int) -> Option<SpineView> {
    |k: int|
        if manifest.contains_key(idrefs[k]) {
            Some(SpineView { href: normalized(root, manifest[idrefs[k]]), title: None })
        } else {
            None
        }
}

proof fn lemma_spine(
    idrefs: Seq<Seq<char>>,
    n: int,
    manifest: Map<Seq<char>, Seq<char>>,
    root: Seq<char>,
) -> (at: Seq<int>)
    requires
        0 <= n <= idrefs.len(),
    ensures
        gathers(
            at,
            spine_of(idrefs.take(n), manifest, root),
            n,
            chapter_by(idrefs, manifest, root),
        ),
    decreases n,
{
    if n == 0 {
        Seq::empty()
    } else {
        let before = lemma_spine(idrefs, n - 1, manifest, root);
        assert(idrefs.take(n).drop_last() =~= idrefs.take(n - 1));
        lemma_gather(
            before,
            spine_of(idrefs.take(n - 1), manifest, root),
            n - 1,
            chapter_by(idrefs, manifest, root),
        )
    }
}

/// Every chapter that the spine names and the manifest knows can be opened, in
/// reading order, under the path that the manifest gives it.
pub proof fn every_known_chapter_is_listed(
    idrefs: Seq<Seq<char>>,
    manifest: Map<Seq<char>, Seq<char>>,
    root: Seq<char>,
)
    ensures
        exists|at: Seq<int>| #[trigger]
            gathers(
                at,
                spine_of(idrefs, manifest, root),
                idrefs.len() as int,
                chapter_by(idrefs, manifest, root),
            ),
{
    let at = lemma_spine(idrefs, idrefs.len() as int, manifest, root);
    assert(idrefs.take(idrefs.len() as int) =~= idrefs);
    assert(gathers(
        at,
        spine_of(idrefs, manifest, root),
        idrefs.len() as int,
        chapter_by(idrefs, manifest, root),
    ));
}

/// A book that opens has its chapters, each named after its entry in the table of
/// contents, and the metadata of its package document.
pub proof fn a_book_is_its_package(archive: Seq<u8>, shown: Seq<char>)
    requires
        book_opened(archive, shown) is Ok,
    ensures
        ({
            let b = book_opened(archive, shown)->Ok_0;
            &&& b.archive == archive
            &&& b.spine.len() > 0
            &&& package_path(archive) is Ok
            &&& b.root == directory_of(package_path(archive)->Ok_0)
            &&& exists|d: Seq<NodeView>|
                parsed_xml(entry_text(archive, package_path(archive)->Ok_0)->Ok_0, true) == Ok::<
                    _,
                    Seq<char>,
                >(d) && b.metadata == (#[trigger] package_of(d)).metadata && b.spine.len()
                    == spine_of(package_of(d).spine, package_of(d).manifest, b.root).len()
                    && forall|i: int|
                    0 <= i < b.spine.len() ==> (#[trigger] b.spine[i]).href == spine_of(
                        package_of(d).spine,
                        package_of(d).manifest,
                        b.root,
                    )[i].href
        }),
{
    let d = parsed_xml(entry_text(archive, package_path(archive)->Ok_0)->Ok_0, true)->Ok_0;
    let p = package_of(d);
    assert(p == package_of(d));
}

/// Titles are put on chapters by their path; nothing else about a chapter changes.
pub proof fn titles_go_to_their_chapters(
    spine: Seq<SpineView>,
    titles: Map<Seq<char>, Seq<char>>,
    i: int,
)
    requires
        0 <= i < spine.len(),
    ensures
        spine_titled(spine, titles).len() == spine.len(),
        spine_titled(spine, titles)[i].href == spine[i].href,
        spine_titled(spine, titles)[i].title == (if titles.contains_key(spine[i].href) {
            Some(titles[spine[i].href])
        } else {
            spine[i].title
        }),
{
}

// ---------------------------------------------------------------------------
// Tables of contents
// ---------------------------------------------------------------------------
/// What a link of a navigation document calls the chapter under a path.
pub open spec fn called_by(
    d: Seq<NodeView>,
    base: Seq<char>,
    from: int,
    path: Seq<char>,
) -> spec_fn(int) -> Option<Seq<char>> {
    |k: int|
        if d[from + k].kind == NodeKind::Element && d[from + k].name == "a"@ && (
        d[from + k].attribute("href"@) matches Some(h) && normalized(base, h) == path) {
            said(d, from + k)
        } else {
            None
        }
}

/// A chapter is called what the first link to it says that says anything.
pub proof fn the_first_link_names_its_chapter(
    d: Seq<NodeView>,
    base: Seq<char>,
    from: int,
    to: int,
    path: Seq<char>,
)
    requires
        0 <= from <= to <= d.len(),
    ensures
        is_first(under(nav_titles(d, base, from, to), path), to - from, called_by(d, base, from, path)),
    decreases to - from,
{
    if from < to {
        the_first_link_names_its_chapter(d, base, from, to - 1, path);
        let before = nav_titles(d, base, from, to - 1);
        let of = called_by(d, base, from, path);
        lemma_first(under(before, path), to - 1 - from, of);
        assert(element_text(d, to - 1) == said(d, to - 1));
        let n = d[to - 1];
        assert(from + (to - 1 - from) == to - 1);
        assert(under(nav_titles(d, base, from, to), path) == (if under(before, path) is Some {
            under(before, path)
        } else {
            of(to - 1 - from)
        }));
    }
}

/// What a point of an NCX document calls the chapter under a path.
pub open spec fn pointed_by(d: Seq<NodeView>, base: Seq<char>, path: Seq<char>) -> spec_fn(
    int,
) -> Option<Seq<char>> {
    |k: int|
        if d[k].kind == NodeKind::Element && d[k].name == "navPoint"@ && (point_href(
            d,
            k,
        ) matches Some(h) && normalized(base, h) == path) {
            point_title(d, k)
        } else {
            None
        }
}

/// A chapter is called what the first point for it says that says anything.
pub proof fn the_first_point_names_its_chapter(
    d: Seq<NodeView>,
    base: Seq<char>,
    n: int,
    path: Seq<char>,
)
    requires
        0 <= n <= d.len(),
    ensures
        is_first(under(ncx_titles(d, base, n), path), n, pointed_by(d, base, path)),
    decreases n,
{
    if n > 0 {
        the_first_point_names_its_chapter(d, base, n - 1, path);
        let before = ncx_titles(d, base, n - 1);
        let of = pointed_by(d, base, path);
        lemma_first(under(before, path), n - 1, of);
        assert(under(ncx_titles(d, base, n), path) == (if under(before, path) is Some {
            under(before, path)
        } else {
            of(n - 1)
        }));
    }
}

/// The elements of a name, by where they stand.
pub open spec fn named_by(d: Seq<NodeView>, name: Seq<char>, from: int) -> spec_fn(int) -> Option<int> {
    |k: int|
        if d[from + k].kind == NodeKind::Element && d[from + k].name == name {
            Some(from + k)
        } else {
            None
        }
}

/// Looking for an element by its name finds the first.
pub proof fn the_first_of_a_name_is_found(d: Seq<NodeView>, name: Seq<char>, from: int, to: int)
    requires
        0 <= from <= to <= d.len(),
    ensures
        is_first(find_named(d, name, from, to), to - from, named_by(d, name, from)),
    decreases to - from,
{
    let of = named_by(d, name, from);
    if from < to {
        if d[from].is_named(name) {
            assert(of(0) == Some(from));
        } else {
            the_first_of_a_name_is_found(d, name, from + 1, to);
            let rest = named_by(d, name, from + 1);
            let o = find_named(d, name, from + 1, to);
            assert(of(0) is None);
            assert forall|k: int| 0 < k implies #[trigger] of(k) == rest(k - 1) by {
                assert(from + k == from + 1 + (k - 1));
            }
            match o {
                Some(t) => {
                    let k = choose|k: int|
                        0 <= k < to - from - 1 && #[trigger] rest(k) == Some(t) && forall|j: int|
                            0 <= j < k ==> (#[trigger] rest(j)) is None;
                    assert(of(k + 1) == Some(t));
                    assert forall|j: int| 0 <= j < k + 1 implies (#[trigger] of(j)) is None by {
                        if j > 0 {
                            assert(rest(j - 1) is None);
                        }
                    }
                },
                None => {
                    assert forall|j: int| 0 <= j < to - from implies (#[trigger] of(j)) is None by {
                        if j > 0 {
                            assert(rest(j - 1) is None);
                        }
                    }
                },
            }
        }
    }
}

/// A navigation element marked as the table of contents.
pub open spec fn is_marked(n: NodeView) -> bool {
    n.kind == NodeKind::Element && n.name == "nav"@ && exists|i: int|
        0 <= i < n.attributes.len() && (#[trigger] n.attributes[i]).name == "type"@
            && n.attributes[i].value == "toc"@
}

proof fn lemma_toc(d: Seq<NodeView>, i: int)
    requires
        0 <= i <= d.len(),
    ensures
        match toc_from(d, i) {
            Some(k) => i <= k < d.len() && is_marked(d[k]) && forall|j: int|
                i <= j < k ==> !is_marked(#[trigger] d[j]),
            None => forall|j: int| i <= j < d.len() ==> !is_marked(#[trigger] d[j]),
        },
    decreases d.len() - i,
{
    if i < d.len() {
        lemma_toc(d, i + 1);
    }
}

/// The table of contents is the first navigation element marked as such, or the
/// first of all where none is marked.
pub proof fn the_marked_contents_come_first(d: Seq<NodeView>)
    ensures
        (exists|k: int| 0 <= k < d.len() && is_marked(#[trigger] d[k])) ==> (toc_of(
            d,
        ) matches Some(k) && 0 <= k < d.len() && is_marked(d[k]) && forall|j: int|
            0 <= j < k ==> !is_marked(#[trigger] d[j])),
        !(exists|k: int| 0 <= k < d.len() && is_marked(#[trigger] d[k])) ==> is_first(
            toc_of(d),
            d.len() as int,
            named_by(d, "nav"@, 0),
        ),
{
    lemma_toc(d, 0);
    the_first_of_a_name_is_found(d, "nav"@, 0, d.len() as int);
}

} // verus!
