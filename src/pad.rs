//! Padding bytes for each kind of resource: HTML and CSS padding is wrapped
//! in a comment of the format, other kinds get raw random bytes.
use rand::Rng;
use vstd::prelude::*;

use crate::objects::ObjectKind;
use crate::parsing::{parse_target_size, target_size_of};
use crate::objects::{kind_of_mime, parse_object_kind};

verus! {

/// An ASCII letter or digit: filler that cannot close a comment.
pub open spec fn is_alphanumeric(b: u8) -> bool {
    (48 <= b && b <= 57) || (65 <= b && b <= 90) || (97 <= b && b <= 122)
}

pub open spec fn all_alphanumeric(s: Seq<u8>) -> bool {
    forall|i: int| 0 <= i < s.len() ==> is_alphanumeric(#[trigger] s[i])
}

/// `/*`
pub open spec fn css_open() -> Seq<u8> {
    seq![47u8, 42u8]
}

/// `*/`
pub open spec fn css_close() -> Seq<u8> {
    seq![42u8, 47u8]
}

/// `<!--`
pub open spec fn html_open() -> Seq<u8> {
    seq![60u8, 33u8, 45u8, 45u8]
}

/// `-->`
pub open spec fn html_close() -> Seq<u8> {
    seq![45u8, 45u8, 62u8]
}

/// Whether `p` is `open`, then alphanumeric filler, then `close`, `len` bytes in all.
pub open spec fn wrapped_filler(p: Seq<u8>, open: Seq<u8>, close: Seq<u8>, len: nat) -> bool {
    &&& p.len() == len
    &&& len >= open.len() + close.len()
    &&& p.subrange(0, open.len() as int) == open
    &&& p.subrange(p.len() - close.len(), p.len() as int) == close
    &&& all_alphanumeric(p.subrange(open.len() as int, p.len() - close.len()))
}

/// Relies on rand's `Alphanumeric` distribution (rand 0.8 yields `u8`),
/// sampled with `thread_rng`: one of `A-Z`, `a-z`, `0-9`.
#[verifier::external_body]
fn random_alphanumeric() -> (r: u8)
    ensures
        is_alphanumeric(r),
{
    rand::thread_rng().sample(rand::distributions::Alphanumeric)
}

/// Relies on rand's `Rng::gen::<u8>` with `thread_rng`: any byte.
#[verifier::external_body]
fn random_byte() -> (r: u8) {
    rand::thread_rng().gen::<u8>()
}

/// Appends `pad_len` random alphanumeric bytes.
pub fn add_random_chars(pad: &mut Vec<u8>, pad_len: usize)
    ensures
        final(pad)@.len() == old(pad)@.len() + pad_len,
        final(pad)@.subrange(0, old(pad)@.len() as int) == old(pad)@,
        all_alphanumeric(final(pad)@.subrange(old(pad)@.len() as int, final(pad)@.len() as int)),
{
    let ghost start = pad@;
    let mut k: usize = 0;
    while k < pad_len
        invariant
            k <= pad_len,
            pad@.len() == start.len() + k,
            pad@.subrange(0, start.len() as int) == start,
            forall|i: int| start.len() <= i < pad@.len() ==> is_alphanumeric(#[trigger] pad@[i]),
        decreases pad_len - k,
    {
        let c = random_alphanumeric();
        pad.push(c);
        assert(pad@.subrange(0, start.len() as int) =~= start);
        k = k + 1;
    }
    assert(all_alphanumeric(pad@.subrange(start.len() as int, pad@.len() as int))) by {
        assert forall|i: int| 0 <= i < pad@.len() - start.len() implies is_alphanumeric(
            #[trigger] pad@.subrange(start.len() as int, pad@.len() as int)[i],
        ) by {
            assert(pad@.subrange(start.len() as int, pad@.len() as int)[i] == pad@[start.len()
                + i]);
        }
    }
}

/// Alphanumeric filler between `open` and `close`, `len` bytes in all.
fn wrap_filler(open: Vec<u8>, close: Vec<u8>, len: usize) -> (r: Vec<u8>)
    requires
        len >= open@.len() + close@.len(),
    ensures
        wrapped_filler(r@, open@, close@, len as nat),
{
    let mut pad = open;
    let ghost o = pad@;
    let ghost c = close@;
    let fill: usize = len - pad.len() - close.len();
    add_random_chars(&mut pad, fill);
    let ghost mid = pad@;
    let mut tail = close;
    pad.append(&mut tail);
    assert(pad@.subrange(0, o.len() as int) =~= mid.subrange(0, o.len() as int));
    assert(pad@.subrange(pad@.len() - c.len(), pad@.len() as int) =~= c);
    assert(pad@.subrange(o.len() as int, pad@.len() - c.len()) =~= mid.subrange(
        o.len() as int,
        mid.len() as int,
    ));
    pad
}

/// CSS padding of `pad_len` bytes: filler inside `/*` and `*/`.
pub fn get_css_padding(pad_len: usize) -> (r: Vec<u8>)
    requires
        pad_len >= 4,
    ensures
        wrapped_filler(r@, css_open(), css_close(), pad_len as nat),
{
    let open: Vec<u8> = vec![47u8, 42u8];
    let close: Vec<u8> = vec![42u8, 47u8];
    assert(open@ =~= css_open());
    assert(close@ =~= css_close());
    wrap_filler(open, close, pad_len)
}

/// `pad_len` random bytes.
pub fn get_binary_padding(pad_len: usize) -> (r: Vec<u8>)
    ensures
        r@.len() == pad_len,
{
    let mut pad: Vec<u8> = Vec::with_capacity(pad_len);
    let mut k: usize = 0;
    while k < pad_len
        invariant
            k <= pad_len,
            pad@.len() == k,
        decreases pad_len - k,
    {
        pad.push(random_byte());
        k = k + 1;
    }
    pad
}

/// Pads an HTML body to `target_size` bytes with a comment: `<!--`,
/// alphanumeric filler, `-->`. The caller has reserved the seven bytes of
/// the markers.
pub fn get_html_padding(content: &mut Vec<u8>, target_size: usize)
    requires
        target_size >= old(content)@.len() + 7,
    ensures
        final(content)@.len() == target_size,
        final(content)@.subrange(0, old(content)@.len() as int) == old(content)@,
        wrapped_filler(
            final(content)@.subrange(old(content)@.len() as int, target_size as int),
            html_open(),
            html_close(),
            (target_size - old(content)@.len()) as nat,
        ),
{
    let ghost before = content@;
    let open: Vec<u8> = vec![60u8, 33u8, 45u8, 45u8];
    let close: Vec<u8> = vec![45u8, 45u8, 62u8];
    assert(open@ =~= html_open());
    assert(close@ =~= html_close());
    let mut pad = wrap_filler(open, close, target_size - content.len());
    let ghost p = pad@;
    content.append(&mut pad);
    assert(content@.subrange(0, before.len() as int) =~= before);
    assert(content@.subrange(before.len() as int, target_size as int) =~= p);
}

/// What padding of a resource of `kind` from `size` to `target_size` bytes
/// must be: nothing for a stylesheet that cannot fit the four bytes of
/// comment markers, a wrapped comment for one that can, and that many raw
/// bytes for any other kind.
pub open spec fn is_object_padding(p: Seq<u8>, kind: ObjectKind, size: nat, target_size: nat) -> bool {
    if kind == ObjectKind::CSS {
        if size + 4 > target_size {
            p.len() == 0
        } else {
            wrapped_filler(p, css_open(), css_close(), (target_size - size) as nat)
        }
    } else {
        p.len() == target_size - size
    }
}

/// The padding that brings a resource of `kind` from `size` to
/// `target_size` bytes.
pub fn get_object_padding(kind: ObjectKind, size: usize, target_size: usize) -> (r: Vec<u8>)
    requires
        size <= target_size,
    ensures
        is_object_padding(r@, kind, size as nat, target_size as nat),
{
    let pad_len = target_size - size;
    match kind {
        ObjectKind::CSS => {
            if pad_len < 4 {
                Vec::new()
            } else {
                get_css_padding(pad_len)
            }
        },
        _ => get_binary_padding(pad_len),
    }
}

/// The padding to serve after a resource of `size` bytes, requested with
/// `query` and served as `content_type`: none where the query carries no
/// target size above `size`.
pub fn morph_resource(content_type: &str, query: &str, size: usize) -> (r: Vec<u8>)
    ensures
        (target_size_of(query@) == 0 || target_size_of(query@) <= size) ==> r@.len() == 0,
        (target_size_of(query@) != 0 && target_size_of(query@) > size) ==> is_object_padding(
            r@,
            kind_of_mime(content_type@),
            size as nat,
            target_size_of(query@) as nat,
        ),
{
    let kind = parse_object_kind(content_type);
    let target_size = parse_target_size(query);
    if target_size == 0 || target_size <= size {
        return Vec::new();
    }
    get_object_padding(kind, size, target_size)
}

} // verus!
