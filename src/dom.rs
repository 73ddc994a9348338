//! The document tree, through kuchiki: parsing, serialising, selecting
//! elements and reading or writing their attributes. Nodes are opaque here;
//! the discovery of a page's resources works on what these calls return.
use kuchiki::traits::TendrilSink;
use kuchiki::NodeRef;
use vstd::prelude::*;

use crate::objects::{Object, ObjectKind};
use crate::parsing::{filesystem_path, first_index_exec, uri_to_abs_fs_path};
use crate::text::{chars_of, copy_range, lemma_first_index_bounds, first_index_from, string_of};
use crate::distribution::same_chars;

verus! {

#[verifier::external_type_specification]
#[verifier::external_body]
pub struct ExNodeRef(kuchiki::NodeRef);

/// Relies on `<NodeRef as Clone>::clone`: another handle to the same node.
pub assume_specification[ <kuchiki::NodeRef as Clone>::clone ](n: &kuchiki::NodeRef) -> kuchiki::NodeRef;

/// Relies on kuchiki's `parse_html_with_options` (html5ever's parser, with
/// the doctype dropped), fed the whole input: a document for any text.
#[verifier::external_body]
pub fn parse_html(input: &str) -> NodeRef {
    let mut opts = kuchiki::ParseOpts::default();
    opts.tree_builder.drop_doctype = true;
    kuchiki::parse_html_with_options(opts).one(input)
}

/// Relies on html5ever's `serialize` with default options into a byte
/// vector; none where it reports an error.
#[verifier::external_body]
pub fn serialize_html(dom: &NodeRef) -> Option<Vec<u8>> {
    let mut buf: Vec<u8> = Vec::new();
    match html5ever::serialize(&mut buf, dom, html5ever::serialize::SerializeOpts::default()) {
        Ok(()) => Some(buf),
        Err(_) => None,
    }
}

/// Relies on kuchiki's `NodeRef::select`: the elements at or below `node` that
/// match the selector, in document order; none for an invalid selector.
#[verifier::external_body]
fn select_nodes(node: &NodeRef, selectors: &str) -> Option<Vec<NodeRef>> {
    match node.select(selectors) {
        Ok(found) => Some(found.map(|d| d.as_node().clone()).collect()),
        Err(()) => None,
    }
}

/// Relies on kuchiki's `NodeRef::as_element`: an element's local name.
#[verifier::external_body]
pub(crate) fn element_name(node: &NodeRef) -> Option<String> {
    match node.as_element() {
        Some(e) => Some(e.name.local.to_string()),
        None => None,
    }
}

/// Relies on kuchiki's `Attributes::get` on an element: the attribute's value.
#[verifier::external_body]
pub fn node_get_attribute(node: &NodeRef, name: &str) -> Option<String> {
    match node.as_element() {
        Some(e) => e.attributes.borrow().get(name).map(String::from),
        None => None,
    }
}

/// Relies on kuchiki's `Attributes::insert`: sets an element's attribute;
/// a node that is no element is left as it is.
#[verifier::external_body]
pub fn node_set_attribute(node: &NodeRef, name: &str, value: String) {
    if let Some(e) = node.as_element() {
        e.attributes.borrow_mut().insert(name, value);
    }
}

/// Relies on kuchiki's `NodeRef::new_element`: a new element without
/// attributes, in the empty namespace.
#[verifier::external_body]
pub fn create_element(name: &str) -> NodeRef {
    let qual_name = html5ever::QualName::new(
        None,
        html5ever::Namespace::from(""),
        html5ever::LocalName::from(name),
    );
    NodeRef::new_element(qual_name, Vec::new())
}

/// Relies on kuchiki's `NodeRef::append`: `child` becomes the last child.
#[verifier::external_body]
pub fn append_child(parent: &NodeRef, child: NodeRef) {
    parent.append(child)
}

/// Whether a string equals a literal.
pub fn equals_literal(s: &str, lit: &str) -> (r: bool)
    ensures
        r == (s@ == lit@),
{
    let a = chars_of(s);
    let b = chars_of(lit);
    same_chars(&a, &b)
}

/// The part of a reference before its first `?`.
pub open spec fn before_query(uri: Seq<char>) -> Seq<char> {
    uri.subrange(0, first_index_from(uri, '?', 0))
}

/// A resource that a page references, with where its content lies.
pub struct FoundRef {
    pub kind: ObjectKind,
    /// The reference as the page writes it.
    pub uri: String,
    /// Its path on the filesystem.
    pub path: String,
    /// The element that references it.
    pub node: NodeRef,
}

impl FoundRef {
    /// The resource, with the content read from its path: a stylesheet, or
    /// an image.
    pub fn into_object(self, content: &[u8]) -> (r: Object)
        ensures
            r.kind == self.kind,
            r.content@ == content@,
            r.node == Some(self.node),
            r.target_size is None,
            r.uri == self.uri,
    {
        Object {
            kind: self.kind,
            content: vstd::slice::slice_to_vec(content),
            node: Some(self.node),
            target_size: None,
            uri: self.uri,
        }
    }
}

/// What makes a found reference sound: a stylesheet or an image whose path
/// is the reference, without its query, mapped under the content root.
pub open spec fn found_ok(f: FoundRef, root: Seq<char>, html_path: Seq<char>, alias: nat) -> bool {
    (f.kind == ObjectKind::CSS || f.kind == ObjectKind::IMG) && filesystem_path(
        root,
        before_query(f.uri@),
        html_path,
        alias,
    ) == Some(f.path@)
}

pub open spec fn opt_view(o: Option<String>) -> Option<Seq<char>> {
    match o {
        Some(s) => Some(s@),
        None => None,
    }
}

/// What a `<link>` contributes as a stylesheet: its `href` where its `rel`
/// is `stylesheet`.
pub open spec fn stylesheet_choice(rel: Option<Seq<char>>, href: Option<Seq<char>>) -> Option<
    Seq<char>,
> {
    match (rel, href) {
        (Some(r), Some(h)) => if r == "stylesheet"@ {
            Some(h)
        } else {
            None
        },
        _ => None,
    }
}

/// What an `<img>` or `<link>` contributes as an image: whether it is a
/// site-icon link, and the reference, which is the `href` of an icon link
/// (`rel` is `icon` or `shortcut icon`), nothing for another link, and the
/// `src` of any other element.
pub open spec fn image_choice(
    name: Option<Seq<char>>,
    rel: Option<Seq<char>>,
    href: Option<Seq<char>>,
    src: Option<Seq<char>>,
) -> (bool, Option<Seq<char>>) {
    if name == Some("link"@) {
        if rel == Some("shortcut icon"@) || rel == Some("icon"@) {
            (true, href)
        } else {
            (false, None)
        }
    } else {
        (false, src)
    }
}

/// The stylesheet reference of a `<link>` with these attributes, as
/// `stylesheet_choice` states.
pub fn stylesheet_reference(rel: Option<String>, href: Option<String>) -> (r: Option<String>)
    ensures
        opt_view(r) == stylesheet_choice(opt_view(rel), opt_view(href)),
{
    match (rel, href) {
        (Some(r), Some(h)) => {
            if equals_literal(r.as_str(), "stylesheet") {
                Some(h)
            } else {
                None
            }
        },
        _ => None,
    }
}

fn is_literal(o: &Option<String>, lit: &str) -> (r: bool)
    ensures
        r == (opt_view(*o) == Some(lit@)),
{
    match o {
        Some(s) => equals_literal(s.as_str(), lit),
        None => false,
    }
}

/// The image reference of an element with this name and these attributes,
/// and whether it is a site-icon link, as `image_choice` states.
pub fn image_reference(
    name: Option<String>,
    rel: Option<String>,
    href: Option<String>,
    src: Option<String>,
) -> (r: (bool, Option<String>))
    ensures
        (r.0, opt_view(r.1)) == image_choice(opt_view(name), opt_view(rel), opt_view(href), opt_view(src)),
{
    if is_literal(&name, "link") {
        if is_literal(&rel, "shortcut icon") || is_literal(&rel, "icon") {
            (true, href)
        } else {
            (false, None)
        }
    } else {
        (false, src)
    }
}

/// Whether `f` records `uri` of `node`, of `kind`, at `path`.
pub open spec fn found_as(f: FoundRef, kind: ObjectKind, uri: String, path: Seq<char>, node: NodeRef) -> bool {
    f.kind == kind && f.uri == uri && f.path@ == path && f.node == node
}

/// Records `uri` of `node` where, without its query, it maps to a path
/// under the root; otherwise leaves `out` as it is.
pub fn record_reference(
    out: &mut Vec<FoundRef>,
    kind: ObjectKind,
    uri: String,
    node: NodeRef,
    root: &str,
    html_path: &str,
    alias: usize,
)
    ensures
        match filesystem_path(root@, before_query(uri@), html_path@, alias as nat) {
            Some(p) => final(out)@.len() == old(out)@.len() + 1 && final(out)@.subrange(
                0,
                old(out)@.len() as int,
            ) == old(out)@ && found_as(final(out)@.last(), kind, uri, p, node),
            None => final(out)@ == old(out)@,
        },
{
    let u = chars_of(uri.as_str());
    proof {
        lemma_first_index_bounds(u@, '?', 0);
    }
    let q = first_index_exec(&u, '?', 0);
    let relative = string_of(&copy_range(&u, 0, q));
    match uri_to_abs_fs_path(root, relative.as_str(), html_path, alias) {
        Some(path) => {
            let ghost before = out@;
            out.push(FoundRef { kind, uri, path, node });
            assert(out@.subrange(0, before.len() as int) =~= before);
        },
        None => {},
    }
}

/// Finds the stylesheets and images (site icons included) that a page
/// references, in document order, skipping those of other origins and those
/// whose paths escape the alias prefix. Where the page names no site icon,
/// an empty one is added to it. Which reference each element contributes
/// is `stylesheet_reference` and `image_reference`; whether it is kept is
/// `record_reference`.
pub fn find_references(document: &NodeRef, root: &str, html_path: &str, alias: usize) -> (r: Vec<
    FoundRef,
>)
    ensures
        forall|i: int| 0 <= i < r@.len() ==> found_ok(#[trigger] r@[i], root@, html_path@, alias as nat),
{
    let mut out: Vec<FoundRef> = Vec::new();
    let mut found_favicon = false;
    if let Some(links) = select_nodes(document, "link") {
        let mut i: usize = 0;
        while i < links.len()
            invariant
                i <= links@.len(),
                forall|k: int|
                    0 <= k < out@.len() ==> found_ok(#[trigger] out@[k], root@, html_path@, alias as nat),
            decreases links@.len() - i,
        {
            let node = &links[i];
            let rel = node_get_attribute(node, "rel");
            let href = node_get_attribute(node, "href");
            if let Some(path) = stylesheet_reference(rel, href) {
                let ghost before = out@;
                record_reference(&mut out, ObjectKind::CSS, path, node.clone(), root, html_path, alias);
                proof { keep_found(before, out@, root@, html_path@, alias as nat); }
            }
            i = i + 1;
        }
    }
    if let Some(nodes) = select_nodes(document, "img,link") {
        let mut i: usize = 0;
        while i < nodes.len()
            invariant
                i <= nodes@.len(),
                forall|k: int|
                    0 <= k < out@.len() ==> found_ok(#[trigger] out@[k], root@, html_path@, alias as nat),
            decreases nodes@.len() - i,
        {
            let node = &nodes[i];
            let name = element_name(node);
            let rel = node_get_attribute(node, "rel");
            let href = node_get_attribute(node, "href");
            let src = node_get_attribute(node, "src");
            let (icon, reference) = image_reference(name, rel, href, src);
            if icon {
                found_favicon = true;
            }
            if let Some(path) = reference {
                let ghost before = out@;
                record_reference(&mut out, ObjectKind::IMG, path, node.clone(), root, html_path, alias);
                proof { keep_found(before, out@, root@, html_path@, alias as nat); }
            }
            i = i + 1;
        }
    }
    if !found_favicon {
        insert_empty_favicon(document);
    }
    out
}

proof fn keep_found(before: Seq<FoundRef>, after: Seq<FoundRef>, root: Seq<char>, html_path: Seq<char>, alias: nat)
    requires
        forall|k: int| 0 <= k < before.len() ==> found_ok(#[trigger] before[k], root, html_path, alias),
        after == before || (after.len() == before.len() + 1 && after.subrange(0, before.len() as int)
            == before && found_ok(after.last(), root, html_path, alias)),
    ensures
        forall|k: int| 0 <= k < after.len() ==> found_ok(#[trigger] after[k], root, html_path, alias),
{
    if after != before {
        assert forall|k: int| 0 <= k < after.len() implies found_ok(#[trigger] after[k], root, html_path, alias) by {
            if k < before.len() {
                assert(after[k] == after.subrange(0, before.len() as int)[k]);
            }
        }
    }
}

/// Adds `<link href="#" rel="shortcut icon">` to the head, or to the
/// document where it has no head.
pub fn insert_empty_favicon(document: &NodeRef) {
    let elem = create_element("link");
    node_set_attribute(&elem, "href", String::from_str("#"));
    node_set_attribute(&elem, "rel", String::from_str("shortcut icon"));
    match first_match(document, "head") {
        Some(head) => append_child(&head, elem),
        None => append_child(document, elem),
    }
}

/// The first element below `node` that matches the selector.
pub fn first_match(node: &NodeRef, selectors: &str) -> Option<NodeRef> {
    match select_nodes(node, selectors) {
        Some(found) => {
            if found.len() > 0 {
                Some(found[0].clone())
            } else {
                None
            }
        },
        None => None,
    }
}

} // verus!
