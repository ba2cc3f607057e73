//! Reading EPUB containers: package document, spine and navigation.

pub mod laws;
pub mod mathml;
pub mod space;
pub mod xhtml;

use vstd::prelude::*;
use crate::doc::{Chapter, ChapterView};
use crate::failure::Failure;
use crate::journal::{cleaned, non_empty};
use crate::paths::{
    decode, directory, directory_of, normalize, normalized, percent_decode, percent_decoded,
    utf8_lossy,
};
use crate::table::Table;
use crate::text::{
    char_views, chars_are, chars_of, copy_text, decimal, decimal_of, push_chars, push_text, same,
    text_of, text_opt, texts, words, words_of,
};
use crate::xml::{
    find_named, parsed_xml, raw_text, slice_opt, subtree_end, Document, Node, NodeKind, NodeView,
};

verus! {

// ---------------------------------------------------------------------------
// The container
// ---------------------------------------------------------------------------
/// Why a file could not be read from the container.
#[derive(Debug)]
pub enum EntryFault {
    /// The container cannot be read at all.
    Container(String),
    /// There is no such file in it.
    Missing(String),
    /// The file is there but its content cannot be read.
    Unreadable(String),
}

#[verifier::ext_equal]
pub enum EntryFaultView {
    Container(Seq<char>),
    Missing(Seq<char>),
    Unreadable(Seq<char>),
}

impl View for EntryFault {
    type V = EntryFaultView;

    open spec fn view(&self) -> EntryFaultView {
        match *self {
            EntryFault::Container(m) => EntryFaultView::Container(m@),
            EntryFault::Missing(m) => EntryFaultView::Missing(m@),
            EntryFault::Unreadable(m) => EntryFaultView::Unreadable(m@),
        }
    }
}

/// Whether bytes are a zip archive, or what is wrong with them.
pub uninterp spec fn zip_opened(archive: Seq<u8>) -> Result<(), Seq<char>>;

/// `zip::ZipArchive::new` over the bytes. Claims that its answer depends on the
/// bytes alone.
#[verifier::external_body]
fn open_zip(archive: &Vec<u8>) -> (r: Result<(), String>)
    ensures
        (match r {
            Ok(_) => Ok::<(), Seq<char>>(()),
            Err(e) => Err(e@),
        }) == zip_opened(archive@),
{
    let reader = std::io::Cursor::new(archive.as_slice());
    zip::ZipArchive::new(reader).map(|_| ()).map_err(|e| e.to_string())
}

/// The content of a file in a zip archive, or why there is none.
pub uninterp spec fn zip_entry(archive: Seq<u8>, name: Seq<char>) -> Result<Seq<u8>, EntryFaultView>;

pub open spec fn entry_result(r: Result<Vec<u8>, EntryFault>) -> Result<Seq<u8>, EntryFaultView> {
    match r {
        Ok(bytes) => Ok(bytes@),
        Err(fault) => Err(fault@),
    }
}

/// `zip::ZipArchive::by_name` over the bytes, with the entry read to its end.
/// Claims that the content, or the fault, depends on the archive and the name
/// alone.
#[verifier::external_body]
fn read_zip(archive: &Vec<u8>, name: &str) -> (r: Result<Vec<u8>, EntryFault>)
    ensures
        entry_result(r) == zip_entry(archive@, name@),
{
    let reader = std::io::Cursor::new(archive.as_slice());
    let mut zip = zip::ZipArchive::new(reader).map_err(|e| EntryFault::Container(e.to_string()))?;
    let mut entry = zip.by_name(name).map_err(|e| EntryFault::Missing(e.to_string()))?;
    let mut out: Vec<u8> = Vec::new();
    std::io::Read::read_to_end(&mut entry, &mut out).map_err(
        |e| EntryFault::Unreadable(e.to_string()),
    )?;
    Ok(out)
}

/// What is reported when a file is not in the container.
pub open spec fn missing_text(name: Seq<char>) -> Seq<char> {
    name + " is missing from the container"@
}

/// A fault as it is reported.
pub open spec fn fault_report(fault: EntryFaultView, name: Seq<char>) -> Seq<Seq<char>> {
    match fault {
        EntryFaultView::Container(m) => seq![m],
        EntryFaultView::Missing(m) => seq![missing_text(name), m],
        EntryFaultView::Unreadable(m) => seq![m],
    }
}

/// A file of the container, or the report of why it cannot be had.
pub open spec fn entry_bytes(archive: Seq<u8>, name: Seq<char>) -> Result<Seq<u8>, Seq<Seq<char>>> {
    match zip_entry(archive, name) {
        Ok(bytes) => Ok(bytes),
        Err(fault) => Err(fault_report(fault, name)),
    }
}

/// A file of the container as text.
pub open spec fn entry_text(archive: Seq<u8>, name: Seq<char>) -> Result<Seq<char>, Seq<Seq<char>>> {
    match entry_bytes(archive, name) {
        Ok(bytes) => Ok(utf8_lossy(bytes)),
        Err(report) => Err(report),
    }
}

/// Turns a fault into a report.
pub fn report_fault(fault: EntryFault, name: &str) -> (r: Failure)
    ensures
        r@ == fault_report(fault@, name@),
{
    match fault {
        EntryFault::Container(m) => Failure::new(m),
        EntryFault::Missing(m) => {
            let mut text = chars_of(name);
            push_text(&mut text, " is missing from the container");
            let r = Failure::new(m).context(text_of(&text));
            assert(r@ =~= seq![missing_text(name@), m@]);
            r
        },
        EntryFault::Unreadable(m) => Failure::new(m),
    }
}

fn read_bytes(archive: &Vec<u8>, name: &str) -> (r: Result<Vec<u8>, Failure>)
    ensures
        match entry_bytes(archive@, name@) {
            Ok(bytes) => r matches Ok(b) && b@ == bytes,
            Err(report) => r matches Err(e) && e@ == report,
        },
{
    match read_zip(archive, name) {
        Ok(bytes) => Ok(bytes),
        Err(fault) => Err(report_fault(fault, name)),
    }
}

fn read_entry(archive: &Vec<u8>, name: &str) -> (r: Result<String, Failure>)
    ensures
        match entry_text(archive@, name@) {
            Ok(text) => r matches Ok(t) && t@ == text,
            Err(report) => r matches Err(e) && e@ == report,
        },
{
    match read_bytes(archive, name) {
        Ok(bytes) => Ok(decode(&bytes)),
        Err(e) => Err(e),
    }
}

// ---------------------------------------------------------------------------
// The package document
// ---------------------------------------------------------------------------
/// Metadata taken from the package document. Only fields the reader shows.
#[derive(Debug)]
pub struct Metadata {
    pub title: Option<String>,
    pub authors: Vec<String>,
    pub language: Option<String>,
    /// `dc:identifier`, used later to match two files of the same book.
    pub identifier: Option<String>,
}

#[verifier::ext_equal]
pub struct MetadataView {
    pub title: Option<Seq<char>>,
    pub authors: Seq<Seq<char>>,
    pub language: Option<Seq<char>>,
    pub identifier: Option<Seq<char>>,
}

impl View for Metadata {
    type V = MetadataView;

    open spec fn view(&self) -> MetadataView {
        MetadataView {
            title: text_opt(self.title),
            authors: texts(self.authors@),
            language: text_opt(self.language),
            identifier: text_opt(self.identifier),
        }
    }
}

pub open spec fn no_metadata() -> MetadataView {
    MetadataView { title: None, authors: Seq::empty(), language: None, identifier: None }
}

impl Default for Metadata {
    fn default() -> (r: Self)
        ensures
            r@ == no_metadata(),
    {
        let r = Metadata { title: None, authors: Vec::new(), language: None, identifier: None };
        assert(r@ =~= no_metadata());
        r
    }
}

/// One entry of the reading order.
#[derive(Debug)]
pub struct SpineItem {
    /// Path inside the container, relative to its root.
    pub href: String,
    /// Title from the navigation document, when one points here.
    pub title: Option<String>,
}

#[verifier::ext_equal]
pub struct SpineView {
    pub href: Seq<char>,
    pub title: Option<Seq<char>>,
}

impl View for SpineItem {
    type V = SpineView;

    open spec fn view(&self) -> SpineView {
        SpineView { href: self.href@, title: text_opt(self.title) }
    }
}

/// A chapter's title, or its number where it has none.
pub open spec fn entry_title(item: SpineView, index: int) -> Seq<char> {
    match item.title {
        Some(t) => t,
        None => "Chapter "@ + decimal((index + 1) as nat),
    }
}

impl SpineItem {
    /// The title to show for the chapter at `index` of the reading order.
    pub fn shown_title(&self, index: usize) -> (r: String)
        requires
            index < usize::MAX,
        ensures
            r@ == entry_title(self@, index as int),
    {
        match &self.title {
            Some(t) => t.clone(),
            None => {
                let mut out = chars_of("Chapter ");
                let digits = decimal_of((index + 1) as u64);
                push_chars(&mut out, &digits);
                text_of(&out)
            },
        }
    }
}

pub open spec fn spine_views(s: Seq<SpineItem>) -> Seq<SpineView> {
    s.map_values(|i: SpineItem| i@)
}

/// What the package document says.
#[derive(Debug)]
pub struct Package {
    pub metadata: Metadata,
    /// Manifest item id to href, as written in the package document.
    pub manifest: Table<String>,
    /// Spine idrefs in reading order.
    pub spine: Vec<String>,
    pub nav_href: Option<String>,
    pub ncx_href: Option<String>,
}

#[verifier::ext_equal]
pub struct PackageView {
    pub metadata: MetadataView,
    pub manifest: Map<Seq<char>, Seq<char>>,
    pub spine: Seq<Seq<char>>,
    pub nav_href: Option<Seq<char>>,
    pub ncx_href: Option<Seq<char>>,
}

impl View for Package {
    type V = PackageView;

    open spec fn view(&self) -> PackageView {
        PackageView {
            metadata: self.metadata@,
            manifest: self.manifest@.map_values(|s: String| s@),
            spine: texts(self.spine@),
            nav_href: text_opt(self.nav_href),
            ncx_href: text_opt(self.ncx_href),
        }
    }
}

/// What an element says, without white space at its ends.
pub open spec fn element_text(d: Seq<NodeView>, i: int) -> Option<Seq<char>> {
    cleaned(raw_text(d, i, subtree_end(d, i, d.len() as int)))
}

fn text_at(d: &Document, i: usize) -> (r: Option<String>)
    requires
        i < d@.len(),
    ensures
        text_opt(r) == element_text(d@, i as int),
{
    let end = d.end_of(i, d.nodes.len());
    let v = d.raw_text(i, end);
    non_empty(text_of(&v))
}

/// Whether a word stands among the words of a text.
pub open spec fn has_word(s: Seq<char>, word: Seq<char>) -> bool {
    words_of(s).contains(word)
}

fn contains_word(s: &str, word: &str) -> (r: bool)
    ensures
        r == has_word(s@, word@),
{
    let v = chars_of(s);
    let all = words(&v);
    let ghost views = words_of(s@);
    let mut i: usize = 0;
    while i < all.len()
        invariant
            i <= all@.len(),
            char_views(all@) == views,
            views == words_of(s@),
            forall|k: int| 0 <= k < i ==> views[k] != word@,
        decreases all@.len() - i,
    {
        assert(views[i as int] == all@[i as int]@);
        if chars_are(&all[i], word) {
            return true;
        }
        i += 1;
    }
    false
}

/// What has been read of the package document so far, with the id that the spine
/// names for the NCX.
#[verifier::ext_equal]
pub struct ReadingView {
    pub package: PackageView,
    pub toc_id: Option<Seq<char>>,
}

pub open spec fn nothing_read() -> ReadingView {
    ReadingView {
        package: PackageView {
            metadata: no_metadata(),
            manifest: Map::empty(),
            spine: Seq::empty(),
            nav_href: None,
            ncx_href: None,
        },
        toc_id: None,
    }
}

/// What the package document says of one manifest item.
pub open spec fn item_read(p: PackageView, n: NodeView) -> PackageView {
    match (n.attribute("id"@), n.attribute("href"@)) {
        (Some(id), Some(href)) => PackageView {
            nav_href: if (n.attribute("properties"@) matches Some(s) && has_word(s, "nav"@)) {
                Some(href)
            } else {
                p.nav_href
            },
            ncx_href: if n.attribute("media-type"@) == Some("application/x-dtbncx+xml"@) {
                Some(href)
            } else {
                p.ncx_href
            },
            manifest: p.manifest.insert(id, href),
            ..p
        },
        _ => p,
    }
}

/// The effect of one element of the package document.
pub open spec fn element_read(r: ReadingView, n: NodeView, text: Option<Seq<char>>) -> ReadingView {
    let p = r.package;
    let m = p.metadata;
    if n.kind != NodeKind::Element {
        r
    } else if n.name == "title"@ {
        if m.title is None {
            ReadingView {
                package: PackageView { metadata: MetadataView { title: text, ..m }, ..p },
                ..r
            }
        } else {
            r
        }
    } else if n.name == "creator"@ {
        match text {
            Some(t) => ReadingView {
                package: PackageView {
                    metadata: MetadataView { authors: m.authors.push(t), ..m },
                    ..p
                },
                ..r
            },
            None => r,
        }
    } else if n.name == "language"@ {
        if m.language is None {
            ReadingView {
                package: PackageView { metadata: MetadataView { language: text, ..m }, ..p },
                ..r
            }
        } else {
            r
        }
    } else if n.name == "identifier"@ {
        if m.identifier is None {
            ReadingView {
                package: PackageView { metadata: MetadataView { identifier: text, ..m }, ..p },
                ..r
            }
        } else {
            r
        }
    } else if n.name == "item"@ {
        ReadingView { package: item_read(p, n), ..r }
    } else if n.name == "spine"@ {
        ReadingView { toc_id: n.attribute("toc"@), ..r }
    } else if n.name == "itemref"@ {
        // `linear="no"` marks material outside the reading order.
        match n.attribute("idref"@) {
            Some(id) => if n.attribute("linear"@) != Some("no"@) {
                ReadingView { package: PackageView { spine: p.spine.push(id), ..p }, ..r }
            } else {
                r
            },
            None => r,
        }
    } else {
        r
    }
}

/// The first `n` nodes of the package document, read one after the other.
pub open spec fn nodes_read(d: Seq<NodeView>, n: int) -> ReadingView
    decreases n,
{
    if n <= 0 || n > d.len() {
        nothing_read()
    } else {
        element_read(nodes_read(d, n - 1), d[n - 1], element_text(d, n - 1))
    }
}

/// What a parsed package document says. EPUB 2 points at the NCX through the
/// spine's `toc` attribute.
pub open spec fn package_of(d: Seq<NodeView>) -> PackageView {
    let r = nodes_read(d, d.len() as int);
    let p = r.package;
    match (p.ncx_href, r.toc_id) {
        (None, Some(id)) => PackageView {
            ncx_href: if p.manifest.contains_key(id) {
                Some(p.manifest[id])
            } else {
                None
            },
            ..p
        },
        _ => p,
    }
}

fn copy_opt(o: Option<&str>) -> (r: Option<String>)
    ensures
        text_opt(r) == slice_opt(o),
{
    match o {
        Some(s) => Some(copy_text(s)),
        None => None,
    }
}

/// Whether an attribute has that value.
fn attribute_is(n: &Node, name: &str, value: &str) -> (r: bool)
    ensures
        r == (n@.attribute(name@) == Some(value@)),
{
    match n.attribute(name) {
        Some(v) => same(v, value),
        None => false,
    }
}

impl Package {
    fn read_item(&mut self, n: &Node)
        requires
            old(self).manifest.wf(),
        ensures
            final(self).manifest.wf(),
            final(self)@ == item_read(old(self)@, n@),
    {
        let ghost before = self@;
        if let Some(id) = n.attribute("id") {
            if let Some(href) = n.attribute("href") {
                let nav = match n.attribute("properties") {
                    Some(s) => contains_word(s, "nav"),
                    None => false,
                };
                if nav {
                    self.nav_href = Some(copy_text(href));
                }
                if attribute_is(n, "media-type", "application/x-dtbncx+xml") {
                    self.ncx_href = Some(copy_text(href));
                }
                self.manifest.insert(copy_text(id), copy_text(href));
                assert(self@.manifest =~= before.manifest.insert(id@, href@));
                assert(self@ =~= item_read(before, n@));
            }
        }
    }

    fn push_author(&mut self, name: String)
        requires
            old(self).manifest.wf(),
        ensures
            final(self).manifest.wf(),
            final(self)@ == (PackageView {
                metadata: MetadataView {
                    authors: old(self)@.metadata.authors.push(name@),
                    ..old(self)@.metadata
                },
                ..old(self)@
            }),
    {
        let ghost before = texts(self.metadata.authors@);
        self.metadata.authors.push(name);
        assert(texts(self.metadata.authors@) =~= before.push(name@));
    }

    fn push_spine(&mut self, id: String)
        requires
            old(self).manifest.wf(),
        ensures
            final(self).manifest.wf(),
            final(self)@ == (PackageView {
                spine: old(self)@.spine.push(id@),
                ..old(self)@
            }),
    {
        let ghost before = texts(self.spine@);
        self.spine.push(id);
        assert(texts(self.spine@) =~= before.push(id@));
    }
}

/// Reads a parsed package document.
pub fn read_package(d: &Document) -> (r: Package)
    ensures
        r.manifest.wf(),
        r@ == package_of(d@),
{
    let mut package = Package {
        metadata: Metadata::default(),
        manifest: Table::new(),
        spine: Vec::new(),
        nav_href: None,
        ncx_href: None,
    };
    let mut toc_id: Option<String> = None;
    let mut i: usize = 0;
    assert(package@ =~= nothing_read().package);
    while i < d.nodes.len()
        invariant
            i <= d@.len(),
            d@.len() == d.nodes@.len(),
            package.manifest.wf(),
            package@ == nodes_read(d@, i as int).package,
            text_opt(toc_id) == nodes_read(d@, i as int).toc_id,
        decreases d@.len() - i,
    {
        let n = &d.nodes[i];
        assert(d@[i as int] == n@);
        let ghost before = nodes_read(d@, i as int);
        if n.kind == NodeKind::Element {
            let name: &str = n.name.as_str();
            if same(name, "title") {
                if package.metadata.title.is_none() {
                    package.metadata.title = text_at(d, i);
                }
            } else if same(name, "creator") {
                if let Some(text) = text_at(d, i) {
                    package.push_author(text);
                }
            } else if same(name, "language") {
                if package.metadata.language.is_none() {
                    package.metadata.language = text_at(d, i);
                }
            } else if same(name, "identifier") {
                if package.metadata.identifier.is_none() {
                    package.metadata.identifier = text_at(d, i);
                }
            } else if same(name, "item") {
                package.read_item(n);
            } else if same(name, "spine") {
                toc_id = copy_opt(n.attribute("toc"));
            } else if same(name, "itemref") {
                if let Some(id) = n.attribute("idref") {
                    if !attribute_is(n, "linear", "no") {
                        package.push_spine(copy_text(id));
                    }
                }
            }
        }
        i += 1;
        assert(package@ =~= nodes_read(d@, i as int).package);
    }
    if package.ncx_href.is_none() {
        if let Some(id) = toc_id {
            package.ncx_href = match package.manifest.get(&id) {
                Some(href) => Some(href.clone()),
                None => None,
            };
        }
    }
    assert(package@ =~= package_of(d@));
    package
}

/// Parses the package document.
pub fn parse_package(xml: &str) -> (r: Result<Package, Failure>)
    ensures
        match parsed_xml(xml@, true) {
            Ok(d) => r matches Ok(p) && p.manifest.wf() && p@ == package_of(d),
            Err(m) => r matches Err(e) && e@ == seq!["package document is malformed"@, m],
        },
{
    match Document::parse(xml) {
        Ok(d) => Ok(read_package(&d)),
        Err(m) => {
            let e = Failure::new(m).context(copy_text("package document is malformed"));
            assert(e@ =~= seq!["package document is malformed"@, m@]);
            Err(e)
        },
    }
}

// ---------------------------------------------------------------------------
// Navigation
// ---------------------------------------------------------------------------
/// A title for a path, unless the path has one already.
pub open spec fn titled(
    titles: Map<Seq<char>, Seq<char>>,
    base: Seq<char>,
    href: Option<Seq<char>>,
    title: Option<Seq<char>>,
) -> Map<Seq<char>, Seq<char>> {
    match (href, title) {
        (Some(h), Some(t)) => if titles.contains_key(normalized(base, h)) {
            titles
        } else {
            titles.insert(normalized(base, h), t)
        },
        _ => titles,
    }
}

pub open spec fn title_views(t: Table<String>) -> Map<Seq<char>, Seq<char>> {
    t@.map_values(|s: String| s@)
}

fn add_title(titles: &mut Table<String>, base: &str, href: Option<&str>, title: Option<String>)
    requires
        old(titles).wf(),
    ensures
        final(titles).wf(),
        title_views(*final(titles)) == titled(
            title_views(*old(titles)),
            base@,
            slice_opt(href),
            text_opt(title),
        ),
{
    if let Some(href) = href {
        if let Some(title) = title {
            let key = normalize(base, href);
            if titles.find(&key).is_none() {
                let ghost before = title_views(*titles);
                titles.insert(key, title);
                assert(title_views(*titles) =~= before.insert(key@, title@));
            }
        }
    }
}

/// Whether an element is marked as the table of contents.
pub open spec fn is_toc(n: NodeView) -> bool {
    exists|i: int|
        0 <= i < n.attributes.len() && (#[trigger] n.attributes[i]).name == "type"@
            && n.attributes[i].value == "toc"@
}

fn marks_toc(n: &Node) -> (r: bool)
    ensures
        r == is_toc(n@),
{
    let mut i: usize = 0;
    while i < n.attributes.len()
        invariant
            i <= n.attributes@.len(),
            forall|k: int|
                0 <= k < i ==> !((#[trigger] n@.attributes[k]).name == "type"@
                    && n@.attributes[k].value == "toc"@),
        decreases n.attributes@.len() - i,
    {
        assert(n@.attributes[i as int] == n.attributes@[i as int]@);
        if same(&n.attributes[i].name, "type") && same(&n.attributes[i].value, "toc") {
            return true;
        }
        i += 1;
    }
    false
}

/// The first navigation element marked as the table of contents.
pub open spec fn toc_from(d: Seq<NodeView>, i: int) -> Option<int>
    decreases d.len() - i,
{
    if i < 0 || i >= d.len() {
        None
    } else if d[i].is_named("nav"@) && is_toc(d[i]) {
        Some(i)
    } else {
        toc_from(d, i + 1)
    }
}

/// The table of contents: the element marked as such, or else the first
/// navigation element.
pub open spec fn toc_of(d: Seq<NodeView>) -> Option<int> {
    match toc_from(d, 0) {
        Some(i) => Some(i),
        None => find_named(d, "nav"@, 0, d.len() as int),
    }
}

/// The titles of the links from `from` up to `to`.
pub open spec fn nav_titles(
    d: Seq<NodeView>,
    base: Seq<char>,
    from: int,
    to: int,
) -> Map<Seq<char>, Seq<char>>
    decreases to - from,
{
    if from >= to {
        Map::empty()
    } else {
        let before = nav_titles(d, base, from, to - 1);
        let n = d[to - 1];
        if n.is_named("a"@) {
            titled(before, base, n.attribute("href"@), element_text(d, to - 1))
        } else {
            before
        }
    }
}

/// Chapter titles of an EPUB 3 navigation document.
pub open spec fn nav_of(d: Seq<NodeView>, path: Seq<char>) -> Map<Seq<char>, Seq<char>> {
    match toc_of(d) {
        Some(i) => nav_titles(d, directory_of(path), i, subtree_end(d, i, d.len() as int)),
        None => Map::empty(),
    }
}

fn find_toc(d: &Document) -> (r: Option<usize>)
    ensures
        crate::xml::index_of(r) == toc_of(d@),
        r matches Some(i) ==> i < d@.len(),
{
    let mut i: usize = 0;
    while i < d.nodes.len()
        invariant
            i <= d@.len(),
            d@.len() == d.nodes@.len(),
            toc_from(d@, 0) == toc_from(d@, i as int),
        decreases d@.len() - i,
    {
        assert(d@[i as int] == d.nodes@[i as int]@);
        if d.nodes[i].is_named("nav") && marks_toc(&d.nodes[i]) {
            return Some(i);
        }
        i += 1;
    }
    d.find_named("nav", 0, d.nodes.len())
}

/// Reads the chapter titles of an EPUB 3 navigation document.
pub fn read_nav(d: &Document, path: &str) -> (r: Table<String>)
    ensures
        r.wf(),
        title_views(r) == nav_of(d@, path@),
{
    let base = directory(path);
    let mut titles: Table<String> = Table::new();
    assert(title_views(titles) =~= Map::empty());
    if let Some(toc) = find_toc(d) {
        let end = d.end_of(toc, d.nodes.len());
        let mut i: usize = toc;
        while i < end
            invariant
                toc <= i <= end <= d@.len(),
                titles.wf(),
                title_views(titles) == nav_titles(d@, base@, toc as int, i as int),
            decreases end - i,
        {
            let n = &d.nodes[i];
            assert(d@[i as int] == n@);
            if n.is_named("a") {
                add_title(&mut titles, &base, n.attribute("href"), text_at(d, i));
            }
            i += 1;
        }
    }
    titles
}

/// The source that a navigation point of an NCX names.
pub open spec fn point_href(d: Seq<NodeView>, i: int) -> Option<Seq<char>> {
    match find_named(d, "content"@, i, subtree_end(d, i, d.len() as int)) {
        Some(c) => d[c].attribute("src"@),
        None => None,
    }
}

/// The title that a navigation point of an NCX carries.
pub open spec fn point_title(d: Seq<NodeView>, i: int) -> Option<Seq<char>> {
    match find_named(d, "text"@, i, subtree_end(d, i, d.len() as int)) {
        Some(t) => element_text(d, t),
        None => None,
    }
}

/// The titles of the first `n` nodes of an NCX.
pub open spec fn ncx_titles(d: Seq<NodeView>, base: Seq<char>, n: int) -> Map<Seq<char>, Seq<char>>
    decreases n,
{
    if n <= 0 {
        Map::empty()
    } else {
        let before = ncx_titles(d, base, n - 1);
        if d[n - 1].is_named("navPoint"@) {
            titled(before, base, point_href(d, n - 1), point_title(d, n - 1))
        } else {
            before
        }
    }
}

/// Chapter titles of an EPUB 2 NCX document.
pub open spec fn ncx_of(d: Seq<NodeView>, path: Seq<char>) -> Map<Seq<char>, Seq<char>> {
    ncx_titles(d, directory_of(path), d.len() as int)
}

/// Reads the chapter titles of an EPUB 2 NCX document.
pub fn read_ncx(d: &Document, path: &str) -> (r: Table<String>)
    ensures
        r.wf(),
        title_views(r) == ncx_of(d@, path@),
{
    let base = directory(path);
    let mut titles: Table<String> = Table::new();
    assert(title_views(titles) =~= Map::empty());
    let total = d.nodes.len();
    let mut i: usize = 0;
    while i < total
        invariant
            i <= total,
            total == d@.len(),
            titles.wf(),
            title_views(titles) == ncx_titles(d@, base@, i as int),
        decreases total - i,
    {
        let n = &d.nodes[i];
        assert(d@[i as int] == n@);
        if n.is_named("navPoint") {
            let end = d.end_of(i, total);
            let href = match d.find_named("content", i, end) {
                Some(c) => {
                    assert(d@[c as int] == d.nodes@[c as int]@);
                    d.nodes[c].attribute("src")
                },
                None => None,
            };
            let title = match d.find_named("text", i, end) {
                Some(t) => text_at(d, t),
                None => None,
            };
            add_title(&mut titles, &base, href, title);
        }
        i += 1;
    }
    titles
}

/// Maps chapter paths to titles, taken from an EPUB 3 navigation document.
pub fn parse_nav(xml: &str, path: &str) -> (r: Result<Table<String>, Failure>)
    ensures
        match parsed_xml(xml@, true) {
            Ok(d) => r matches Ok(t) && t.wf() && title_views(t) == nav_of(d, path@),
            Err(m) => r matches Err(e) && e@ == seq!["navigation document is malformed"@, m],
        },
{
    match Document::parse(xml) {
        Ok(d) => Ok(read_nav(&d, path)),
        Err(m) => {
            let e = Failure::new(m).context(copy_text("navigation document is malformed"));
            assert(e@ =~= seq!["navigation document is malformed"@, m@]);
            Err(e)
        },
    }
}

/// Maps chapter paths to titles, taken from an EPUB 2 NCX document.
pub fn parse_ncx(xml: &str, path: &str) -> (r: Result<Table<String>, Failure>)
    ensures
        match parsed_xml(xml@, true) {
            Ok(d) => r matches Ok(t) && t.wf() && title_views(t) == ncx_of(d, path@),
            Err(m) => r matches Err(e) && e@ == seq!["NCX document is malformed"@, m],
        },
{
    match Document::parse(xml) {
        Ok(d) => Ok(read_ncx(&d, path)),
        Err(m) => {
            let e = Failure::new(m).context(copy_text("NCX document is malformed"));
            assert(e@ =~= seq!["NCX document is malformed"@, m@]);
            Err(e)
        },
    }
}

// ---------------------------------------------------------------------------
// The book
// ---------------------------------------------------------------------------
/// A book, with its whole file in memory.
#[derive(Debug)]
pub struct Book {
    pub archive: Vec<u8>,
    /// Directory of the package document; hrefs resolve against it.
    pub root: String,
    pub metadata: Metadata,
    pub spine: Vec<SpineItem>,
}

#[verifier::ext_equal]
pub struct BookView {
    pub archive: Seq<u8>,
    pub root: Seq<char>,
    pub metadata: MetadataView,
    pub spine: Seq<SpineView>,
}

impl View for Book {
    type V = BookView;

    open spec fn view(&self) -> BookView {
        BookView {
            archive: self.archive@,
            root: self.root@,
            metadata: self.metadata@,
            spine: spine_views(self.spine@),
        }
    }
}

/// The path of the package document that a parsed `container.xml` names: that of
/// its first `rootfile`.
pub open spec fn rootfile_of(d: Seq<NodeView>) -> Option<Seq<char>> {
    match find_named(d, "rootfile"@, 0, d.len() as int) {
        Some(i) => match d[i].attribute("full-path"@) {
            Some(p) => Some(percent_decoded(p)),
            None => None,
        },
        None => None,
    }
}

/// Where the package document lies, or why that is not known.
pub open spec fn package_path(archive: Seq<u8>) -> Result<Seq<char>, Seq<Seq<char>>> {
    match entry_text(archive, "META-INF/container.xml"@) {
        Err(report) => Err(seq!["not an EPUB: META-INF/container.xml is missing"@] + report),
        Ok(xml) => match parsed_xml(xml, true) {
            Err(m) => Err(seq!["container.xml is malformed"@, m]),
            Ok(d) => match rootfile_of(d) {
                Some(p) => Ok(p),
                None => Err(seq!["container.xml names no package document"@]),
            },
        },
    }
}

fn find_package_path(archive: &Vec<u8>) -> (r: Result<String, Failure>)
    ensures
        match package_path(archive@) {
            Ok(p) => r matches Ok(s) && s@ == p,
            Err(report) => r matches Err(e) && e@ == report,
        },
{
    let container = match read_entry(archive, "META-INF/container.xml") {
        Ok(text) => text,
        Err(e) => {
            return Err(e.context(copy_text("not an EPUB: META-INF/container.xml is missing")));
        },
    };
    let d = match Document::parse(&container) {
        Ok(d) => d,
        Err(m) => {
            let e = Failure::new(m).context(copy_text("container.xml is malformed"));
            assert(e@ =~= seq!["container.xml is malformed"@, m@]);
            return Err(e);
        },
    };
    if let Some(i) = d.find_named("rootfile", 0, d.nodes.len()) {
        assert(d@[i as int] == d.nodes@[i as int]@);
        if let Some(p) = d.nodes[i].attribute("full-path") {
            return Ok(percent_decode(p));
        }
    }
    Err(Failure::new(copy_text("container.xml names no package document")))
}

/// The chapters a package lists, in reading order and without titles. An idref
/// that the manifest does not know is passed over.
pub open spec fn spine_of(
    idrefs: Seq<Seq<char>>,
    manifest: Map<Seq<char>, Seq<char>>,
    root: Seq<char>,
) -> Seq<SpineView>
    decreases idrefs.len(),
{
    if idrefs.len() == 0 {
        Seq::empty()
    } else {
        let front = spine_of(idrefs.drop_last(), manifest, root);
        if manifest.contains_key(idrefs.last()) {
            front.push(
                SpineView { href: normalized(root, manifest[idrefs.last()]), title: None },
            )
        } else {
            front
        }
    }
}

fn list_spine(package: &Package, root: &str) -> (r: Vec<SpineItem>)
    requires
        package.manifest.wf(),
    ensures
        spine_views(r@) == spine_of(package@.spine, package@.manifest, root@),
{
    let mut spine: Vec<SpineItem> = Vec::new();
    let ghost idrefs = package@.spine;
    let mut i: usize = 0;
    assert(idrefs.take(0) =~= Seq::<Seq<char>>::empty());
    assert(spine_views(spine@) =~= Seq::<SpineView>::empty());
    while i < package.spine.len()
        invariant
            i <= package.spine@.len(),
            package.manifest.wf(),
            idrefs == package@.spine,
            spine_views(spine@) == spine_of(idrefs.take(i as int), package@.manifest, root@),
        decreases package.spine@.len() - i,
    {
        assert(idrefs.take(i + 1).drop_last() =~= idrefs.take(i as int));
        assert(idrefs[i as int] == package.spine@[i as int]@);
        let ghost before = spine_views(spine@);
        if let Some(href) = package.manifest.get(&package.spine[i]) {
            let item = SpineItem { href: normalize(root, href), title: None };
            spine.push(item);
            assert(spine_views(spine@) =~= before.push(item@));
        }
        i += 1;
    }
    assert(idrefs.take(idrefs.len() as int) =~= idrefs);
    spine
}

/// The titles that one navigation document gives, when it can be read and
/// parsed.
pub open spec fn titles_from(
    archive: Seq<u8>,
    root: Seq<char>,
    href: Option<Seq<char>>,
    ncx: bool,
) -> Option<Map<Seq<char>, Seq<char>>> {
    match href {
        None => None,
        Some(h) => {
            let full = normalized(root, h);
            match entry_text(archive, full) {
                Err(_) => None,
                Ok(xml) => match parsed_xml(xml, true) {
                    Err(_) => None,
                    Ok(d) => Some(
                        if ncx {
                            ncx_of(d, full)
                        } else {
                            nav_of(d, full)
                        },
                    ),
                },
            }
        },
    }
}

/// The titles of a book's chapters, preferring EPUB 3's nav over EPUB 2's NCX.
pub open spec fn titles_of(
    archive: Seq<u8>,
    root: Seq<char>,
    nav: Option<Seq<char>>,
    ncx: Option<Seq<char>>,
) -> Map<Seq<char>, Seq<char>> {
    match titles_from(archive, root, nav, false) {
        Some(t) => t,
        None => match titles_from(archive, root, ncx, true) {
            Some(t) => t,
            None => Map::empty(),
        },
    }
}

fn read_titles(archive: &Vec<u8>, root: &str, href: &Option<String>, ncx: bool) -> (r: Option<
    Table<String>,
>)
    ensures
        match titles_from(archive@, root@, text_opt(*href), ncx) {
            Some(m) => r matches Some(t) && t.wf() && title_views(t) == m,
            None => r is None,
        },
{
    match href {
        None => None,
        Some(h) => {
            let full = normalize(root, h);
            match read_entry(archive, &full) {
                Err(_) => None,
                Ok(xml) => {
                    let parsed = if ncx {
                        parse_ncx(&xml, &full)
                    } else {
                        parse_nav(&xml, &full)
                    };
                    match parsed {
                        Ok(t) => Some(t),
                        Err(_) => None,
                    }
                },
            }
        },
    }
}

/// Spine items with the titles that the navigation gives them.
pub open spec fn spine_titled(
    spine: Seq<SpineView>,
    titles: Map<Seq<char>, Seq<char>>,
) -> Seq<SpineView> {
    spine.map_values(
        |s: SpineView|
            if titles.contains_key(s.href) {
                SpineView { title: Some(titles[s.href]), ..s }
            } else {
                s
            },
    )
}

fn title_spine(spine: &mut Vec<SpineItem>, titles: &Table<String>)
    requires
        titles.wf(),
    ensures
        spine_views(final(spine)@) == spine_titled(spine_views(old(spine)@), title_views(*titles)),
{
    let ghost start = spine_views(spine@);
    let ghost wanted = spine_titled(start, title_views(*titles));
    let mut i: usize = 0;
    while i < spine.len()
        invariant
            i <= spine@.len(),
            titles.wf(),
            spine@.len() == start.len(),
            wanted == spine_titled(start, title_views(*titles)),
            forall|k: int| 0 <= k < i ==> (#[trigger] spine@[k])@ == wanted[k],
            forall|k: int| i <= k < spine@.len() ==> (#[trigger] spine@[k])@ == start[k],
        decreases spine@.len() - i,
    {
        let ghost was = spine@;
        assert(spine@[i as int]@ == start[i as int]);
        let title = match titles.get(&spine[i].href) {
            Some(t) => Some(t.clone()),
            None => None,
        };
        if let Some(title) = title {
            spine[i].title = Some(title);
        }
        assert(spine@[i as int]@ == wanted[i as int]);
        i += 1;
    }
    assert(spine_views(spine@) =~= wanted);
}

/// What opening a file gives. `shown` is the name the file goes by in a report.
pub open spec fn book_opened(archive: Seq<u8>, shown: Seq<char>) -> Result<BookView, Seq<Seq<char>>> {
    match zip_opened(archive) {
        Err(m) => Err(seq![shown + " is not a zip archive"@, m]),
        Ok(_) => match package_path(archive) {
            Err(report) => Err(report),
            Ok(opf) => match entry_text(archive, opf) {
                Err(report) => Err(report),
                Ok(xml) => match parsed_xml(xml, true) {
                    Err(m) => Err(seq!["package document is malformed"@, m]),
                    Ok(d) => {
                        let p = package_of(d);
                        let root = directory_of(opf);
                        let spine = spine_of(p.spine, p.manifest, root);
                        if spine.len() == 0 {
                            Err(seq!["package document lists no readable spine items"@])
                        } else {
                            Ok(
                                BookView {
                                    archive,
                                    root,
                                    metadata: p.metadata,
                                    spine: spine_titled(
                                        spine,
                                        titles_of(archive, root, p.nav_href, p.ncx_href),
                                    ),
                                },
                            )
                        }
                    },
                },
            },
        },
    }
}

/// A chapter, or why it cannot be shown. Image paths in a chapter are relative
/// to the chapter's own directory.
pub open spec fn chapter_at(book: BookView, index: int) -> Result<ChapterView, Seq<Seq<char>>> {
    if index < 0 || index >= book.spine.len() {
        Err(seq!["no spine item at index "@ + decimal(index as nat)])
    } else {
        let href = book.spine[index].href;
        match entry_text(book.archive, href) {
            Err(report) => Err(report),
            Ok(xml) => match parsed_xml(xhtml::entities_resolved(xml), true) {
                Err(m) => Err(
                    seq!["cannot parse chapter "@ + href, "chapter is not well-formed XML"@, m],
                ),
                Ok(d) => {
                    let p = xhtml::chapter_of(d, directory_of(href));
                    Ok(
                        ChapterView {
                            href,
                            blocks: p.blocks,
                            links: p.links,
                            anchors: p.anchors,
                        },
                    )
                },
            },
        }
    }
}

impl Book {
    /// Opens a book from the bytes of its file.
    pub fn open(archive: Vec<u8>, shown: &str) -> (r: Result<Self, Failure>)
        ensures
            match book_opened(archive@, shown@) {
                Ok(b) => r matches Ok(book) && book@ == b && book.spine@.len() > 0,
                Err(report) => r matches Err(e) && e@ == report,
            },
    {
        if let Err(m) = open_zip(&archive) {
            let mut text = chars_of(shown);
            push_text(&mut text, " is not a zip archive");
            let e = Failure::new(m).context(text_of(&text));
            assert(e@ =~= seq![shown@ + " is not a zip archive"@, m@]);
            return Err(e);
        }
        let opf_path = match find_package_path(&archive) {
            Ok(p) => p,
            Err(e) => {
                return Err(e);
            },
        };
        let root = directory(&opf_path);
        let opf = match read_entry(&archive, &opf_path) {
            Ok(text) => text,
            Err(e) => {
                return Err(e);
            },
        };
        let package = match parse_package(&opf) {
            Ok(p) => p,
            Err(e) => {
                return Err(e);
            },
        };
        let mut spine = list_spine(&package, &root);
        assert(spine@.len() == spine_views(spine@).len());
        if spine.len() == 0 {
            return Err(
                Failure::new(copy_text("package document lists no readable spine items")),
            );
        }
        let titles = match read_titles(&archive, &root, &package.nav_href, false) {
            Some(t) => t,
            None => match read_titles(&archive, &root, &package.ncx_href, true) {
                Some(t) => t,
                None => {
                    let t: Table<String> = Table::new();
                    assert(title_views(t) =~= Map::empty());
                    t
                },
            },
        };
        title_spine(&mut spine, &titles);
        assert(spine@.len() == spine_views(spine@).len());
        Ok(Book { archive, root, metadata: package.metadata, spine })
    }

    /// Parses the chapter at `index` of the reading order. Its links and link
    /// targets lie within its blocks.
    pub fn chapter(&self, index: usize) -> (r: Result<Chapter, Failure>)
        ensures
            match chapter_at(self@, index as int) {
                Ok(c) => r matches Ok(chapter) && chapter.wf() && chapter@ == c
                    && xhtml::all_in_place(c.blocks, c.links, c.anchors),
                Err(report) => r matches Err(e) && e@ == report,
            },
    {
        if index >= self.spine.len() {
            let mut text = chars_of("no spine item at index ");
            let digits = decimal_of(index as u64);
            push_chars(&mut text, &digits);
            return Err(Failure::new(text_of(&text)));
        }
        assert(self@.spine[index as int] == self.spine@[index as int]@);
        let href = self.spine[index].href.clone();
        let source = match read_entry(&self.archive, &href) {
            Ok(text) => text,
            Err(e) => {
                return Err(e);
            },
        };
        let base = directory(&href);
        match xhtml::parse_in(&source, &base) {
            Ok(parsed) => Ok(
                Chapter {
                    href,
                    blocks: parsed.blocks,
                    links: parsed.links,
                    anchors: parsed.anchors,
                },
            ),
            Err(e) => {
                let ghost cause = e@;
                let mut text = chars_of("cannot parse chapter ");
                push_text(&mut text, &href);
                let e = e.context(text_of(&text));
                assert(e@ =~= seq![
                    "cannot parse chapter "@ + href@,
                    "chapter is not well-formed XML"@,
                    cause[1],
                ]);
                Err(e)
            },
        }
    }

    pub fn title(&self) -> (r: &str)
        ensures
            r@ == (match self@.metadata.title {
                Some(t) => t,
                None => "Untitled"@,
            }),
    {
        match &self.metadata.title {
            Some(t) => t.as_str(),
            None => "Untitled",
        }
    }

    /// Raw bytes of a file inside the container, for images.
    pub fn read_binary(&self, name: &str) -> (r: Result<Vec<u8>, Failure>)
        ensures
            match entry_bytes(self@.archive, name@) {
                Ok(bytes) => r matches Ok(b) && b@ == bytes,
                Err(report) => r matches Err(e) && e@ == report,
            },
    {
        read_bytes(&self.archive, name)
    }
}

} // verus!
