//! The resources of a page: real ones, found in the document, and synthetic
//! ones that exist only to be requested at a given size.
use kuchiki::NodeRef;
use vstd::prelude::*;
use vstd::slice::slice_to_vec;
use vstd::string::StringSliceAdditionalSpecFns;

use crate::dom::equals_literal;
use crate::parsing::{occurs_at, occurs_at_exec};
use crate::text::chars_of;

verus! {

/// The kinds of resources; each has its own padding.
#[derive(Debug, Clone, Copy, PartialEq, Eq, Structural)]
pub enum ObjectKind {
    /// A synthetic padding resource.
    Alpaca,
    HTML,
    CSS,
    /// An image: PNG, JPEG, and the like.
    IMG,
    /// A type that the parser cannot tell.
    Unknown,
}

/// The kind that a MIME type denotes.
pub open spec fn kind_of_mime(mime: Seq<char>) -> ObjectKind {
    if mime == "text/html"@ {
        ObjectKind::HTML
    } else if mime == "text/css"@ {
        ObjectKind::CSS
    } else if occurs_at(mime, "image/"@, 0) {
        ObjectKind::IMG
    } else {
        ObjectKind::Unknown
    }
}

/// Parses a resource's kind from its MIME type.
pub fn parse_object_kind(mime: &str) -> (r: ObjectKind)
    ensures
        r == kind_of_mime(mime@),
{
    if equals_literal(mime, "text/html") {
        ObjectKind::HTML
    } else if equals_literal(mime, "text/css") {
        ObjectKind::CSS
    } else {
        let m = chars_of(mime);
        let p = chars_of("image/");
        if occurs_at_exec(&m, &p, 0) {
            ObjectKind::IMG
        } else {
            ObjectKind::Unknown
        }
    }
}

/// A resource in the morphing process.
pub struct Object {
    pub kind: ObjectKind,
    pub content: Vec<u8>,
    /// The element that references it, for a real resource.
    pub node: Option<NodeRef>,
    /// The size to pad it to, once decided.
    pub target_size: Option<usize>,
    /// Its reference as the page writes it; a fixed name for synthetic ones.
    pub uri: String,
}

/// The name that synthetic resources carry.
pub open spec fn padding_uri() -> Seq<char> {
    "pad_object"@
}

/// Whether `o` is a synthetic resource of target size `size`.
pub open spec fn is_padding_object(o: Object, size: usize) -> bool {
    &&& o.kind == ObjectKind::Alpaca
    &&& o.content@.len() == 0
    &&& o.node is None
    &&& o.target_size == Some(size)
    &&& o.uri@ == padding_uri()
}

/// The size a resource needs: its length, plus four bytes of comment
/// markers for a stylesheet.
pub open spec fn needed_size(o: Object) -> nat {
    o.content@.len() + if o.kind == ObjectKind::CSS {
        4nat
    } else {
        0nat
    }
}

impl Object {
    /// A real resource referenced by `node`.
    pub fn real_object(content: &[u8], mime: &str, uri: String, node: &NodeRef) -> (r: Object)
        ensures
            r.kind == kind_of_mime(mime@),
            r.content@ == content@,
            r.node is Some,
            r.target_size is None,
            r.uri == uri,
    {
        Object {
            kind: parse_object_kind(mime),
            content: slice_to_vec(content),
            node: Some(node.clone()),
            target_size: None,
            uri: uri,
        }
    }

    /// A synthetic resource of the given target size.
    pub fn padding(target_size: usize) -> (r: Object)
        ensures
            is_padding_object(r, target_size),
    {
        Object {
            kind: ObjectKind::Alpaca,
            content: Vec::new(),
            node: None,
            target_size: Some(target_size),
            uri: String::from_str("pad_object"),
        }
    }

    /// A resource with the given text as content, outside any document.
    pub fn from_str(cont: &str, mime: &str, uri: String) -> (r: Object)
        ensures
            r.kind == kind_of_mime(mime@),
            r.content@ == cont.spec_bytes(),
            r.node is None,
            r.target_size is None,
            r.uri == uri,
    {
        Object {
            kind: parse_object_kind(mime),
            content: slice_to_vec(cont.as_bytes()),
            node: None,
            target_size: None,
            uri: uri,
        }
    }

    /// A resource with the given bytes as content, outside any document.
    pub fn from_raw(raw: &[u8], mime: &str, uri: String) -> (r: Object)
        ensures
            r.kind == kind_of_mime(mime@),
            r.content@ == raw@,
            r.node is None,
            r.target_size is None,
            r.uri == uri,
    {
        Object {
            kind: parse_object_kind(mime),
            content: slice_to_vec(raw),
            node: None,
            target_size: None,
            uri: uri,
        }
    }
}

} // verus!
