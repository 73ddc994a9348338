//! The padding parameter carried by resource references, and the mapping
//! of a reference found in a page to a path under the content root.
use vstd::prelude::*;

use crate::text::{
    chars_of, decimal_chars, digits_of, first_index_from, is_digit,
    lemma_digits_of, lemma_first_index_absent, views, lemma_first_index_bounds, parse_usize, string_of,
    usize_of,
};

verus! {

/// The query parameter that carries a target size: `alpaca-padding=`.
pub open spec fn padding_marker() -> Seq<char> {
    seq!['a', 'l', 'p', 'a', 'c', 'a', '-', 'p', 'a', 'd', 'd', 'i', 'n', 'g', '=']
}

pub open spec fn occurs_at(s: Seq<char>, pat: Seq<char>, i: int) -> bool {
    0 <= i && i + pat.len() <= s.len() && s.subrange(i, i + pat.len()) == pat
}

/// The last index below `k` where the marker starts, or -1.
pub open spec fn last_marker_before(s: Seq<char>, k: int) -> int
    decreases k,
{
    if k <= 0 {
        -1
    } else if occurs_at(s, padding_marker(), k - 1) {
        k - 1
    } else {
        last_marker_before(s, k - 1)
    }
}

/// The target size that a query carries: the number that follows the last
/// marker, up to the next `&`; 0 when there is no marker or no valid number.
pub open spec fn target_size_of(q: Seq<char>) -> usize {
    let i = last_marker_before(q, q.len() as int);
    if i < 0 {
        0
    } else {
        let st = i + 15;
        match usize_of(q.subrange(st, first_index_from(q, '&', st))) {
            Some(v) => v,
            None => 0,
        }
    }
}

/// A reference with the padding parameter appended: after `&` where the
/// reference already has a query, else after `?`.
pub open spec fn padded_reference(uri: Seq<char>, n: nat) -> Seq<char> {
    let sep = if first_index_from(uri, '?', 0) < uri.len() {
        '&'
    } else {
        '?'
    };
    uri.push(sep) + padding_marker() + digits_of(n)
}

/// The part of a reference after its first `?`, or nothing.
pub open spec fn query_of(r: Seq<char>) -> Seq<char> {
    let q = first_index_from(r, '?', 0);
    if q < r.len() {
        r.subrange(q + 1, r.len() as int)
    } else {
        Seq::empty()
    }
}

pub fn marker_chars() -> (r: Vec<char>)
    ensures
        r@ == padding_marker(),
{
    let r: Vec<char> = vec!['a', 'l', 'p', 'a', 'c', 'a', '-', 'p', 'a', 'd', 'd', 'i', 'n', 'g', '='];
    assert(r@ =~= padding_marker());
    r
}

/// Whether `pat` occurs in `s` at index `i`.
pub fn occurs_at_exec(s: &[char], pat: &[char], i: usize) -> (r: bool)
    ensures
        r == occurs_at(s@, pat@, i as int),
{
    if i > s.len() || pat.len() > s.len() - i {
        return false;
    }
    let mut k: usize = 0;
    while k < pat.len()
        invariant
            k <= pat@.len(),
            i + pat.len() <= s.len(),
            forall|j: int| 0 <= j < k ==> s@[i + j] == pat@[j],
        decreases pat@.len() - k,
    {
        if s[i + k] != pat[k] {
            assert(s@.subrange(i as int, i + pat@.len())[k as int] != pat@[k as int]);
            return false;
        }
        k = k + 1;
    }
    assert(s@.subrange(i as int, i + pat@.len()) =~= pat@);
    true
}

/// The first index at or after `from` that holds `c`, or the length.
pub fn first_index_exec(s: &[char], c: char, from: usize) -> (r: usize)
    requires
        from <= s@.len(),
    ensures
        r as int == first_index_from(s@, c, from as int),
{
    let mut i: usize = from;
    while i < s.len()
        invariant
            from <= i <= s@.len(),
            first_index_from(s@, c, from as int) == first_index_from(s@, c, i as int),
        decreases s@.len() - i,
    {
        if s[i] == c {
            return i;
        }
        i = i + 1;
    }
    i
}

/// Parses the target size of a resource from its request's query string;
/// 0 when the parameter is missing or malformed.
pub fn parse_target_size(query: &str) -> (r: usize)
    ensures
        r == target_size_of(query@),
{
    let q = chars_of(query);
    let marker = marker_chars();
    let len: usize = q.len();
    let mut k: usize = len;
    while k > 0
        invariant
            k <= q@.len(),
            len == q@.len(),
            q@ == query@,
            marker@ == padding_marker(),
            last_marker_before(q@, q@.len() as int) == last_marker_before(q@, k as int),
        decreases k,
    {
        if occurs_at_exec(&q, &marker, k - 1) {
            assert(k - 1 + 15 <= len);
            let st: usize = k - 1 + 15;
            proof {
                lemma_first_index_bounds(q@, '&', st as int);
            }
            let e = first_index_exec(&q, '&', st);
            return match parse_usize(&q, st, e) {
                Some(v) => v,
                None => 0,
            };
        }
        k = k - 1;
    }
    0
}

/// `uri` with the padding parameter for `n` appended.
pub fn padded_reference_chars(uri: &[char], n: usize) -> (r: Vec<char>)
    ensures
        r@ == padded_reference(uri@, n as nat),
{
    let mut out: Vec<char> = Vec::new();
    let mut i: usize = 0;
    while i < uri.len()
        invariant
            i <= uri@.len(),
            out@ == uri@.subrange(0, i as int),
        decreases uri@.len() - i,
    {
        out.push(uri[i]);
        i = i + 1;
    }
    assert(out@ =~= uri@);
    if first_index_exec(uri, '?', 0) < uri.len() {
        out.push('&');
    } else {
        out.push('?');
    }
    let mut tail = marker_chars();
    out.append(&mut tail);
    let mut digits = decimal_chars(n);
    out.append(&mut digits);
    out
}

/// The reference `uri` with the padding parameter for `n` appended.
pub fn padded_reference_string(uri: &str, n: usize) -> (r: String)
    ensures
        r@ == padded_reference(uri@, n as nat),
{
    let u = chars_of(uri);
    let p = padded_reference_chars(&u, n);
    string_of(&p)
}

proof fn lemma_last_marker_is(s: Seq<char>, pos: int, k: int)
    requires
        0 <= pos < k <= s.len(),
        occurs_at(s, padding_marker(), pos),
        forall|j: int| pos < j < k ==> !occurs_at(s, padding_marker(), j),
    ensures
        last_marker_before(s, k) == pos,
    decreases k,
{
    if k - 1 > pos {
        lemma_last_marker_is(s, pos, k - 1);
    }
}

/// Whatever precedes it, a marker followed by the numeral of `n` gives back `n`.
pub proof fn lemma_target_size_after_marker(p: Seq<char>, n: nat)
    requires
        n <= usize::MAX,
    ensures
        target_size_of(p + padding_marker() + digits_of(n)) == n,
{
    let d = digits_of(n);
    let s = p + padding_marker() + d;
    let pos = p.len() as int;
    let st = pos + 15;
    lemma_digits_of(n);
    assert(s.subrange(pos, pos + 15) =~= padding_marker());
    assert forall|j: int| st <= j < s.len() implies s[j] == d[j - st] && is_digit(s[j]) && s[j]
        != '=' && s[j] != '&' by {
        assert(is_digit(d[j - st]));
    }
    assert forall|j: int| pos < j < s.len() implies !occurs_at(s, padding_marker(), j) by {
        if occurs_at(s, padding_marker(), j) {
            assert(s.subrange(j, j + 15)[14] == padding_marker()[14]);
            assert(s[j + 14] == '=');
        }
    }
    lemma_last_marker_is(s, pos, s.len() as int);
    lemma_first_index_absent(s, '&', st);
    assert(s.subrange(st, s.len() as int) =~= d);
    assert(is_digit(d[0]));
}

/// Two texts that agree up to `s.len()` have the same first `c` there.
proof fn lemma_first_index_prefix(s: Seq<char>, t: Seq<char>, c: char, i: int)
    requires
        0 <= i <= s.len() < t.len(),
        t.subrange(0, s.len() as int) == s,
        t[s.len() as int] == c,
    ensures
        first_index_from(t, c, i) == first_index_from(s, c, i),
    decreases s.len() - i,
{
    if i < s.len() {
        assert(t[i] == s[i]);
        lemma_first_index_prefix(s, t, c, i + 1);
    } else {
        lemma_first_index_bounds(s, c, i);
    }
}

/// The padding parameter written into a reference reads back as the same
/// target size, from the whole reference and from its query string.
pub proof fn lemma_padded_reference_round_trip(uri: Seq<char>, n: usize)
    ensures
        target_size_of(padded_reference(uri, n as nat)) == n,
        target_size_of(query_of(padded_reference(uri, n as nat))) == n,
{
    let r = padded_reference(uri, n as nat);
    let f = first_index_from(uri, '?', 0);
    lemma_first_index_bounds(uri, '?', 0);
    let sep = if f < uri.len() { '&' } else { '?' };
    lemma_target_size_after_marker(uri.push(sep), n as nat);
    let head = if f < uri.len() { uri } else { uri.push('?') };
    let t = r;
    assert(t.subrange(0, uri.len() as int) =~= uri);
    if f < uri.len() {
        // the first `?` of the reference is the uri's own
        let u2 = uri.subrange(0, f + 1);
        assert(t.subrange(0, (f + 1) as int) =~= u2);
        assert(u2.subrange(0, f) =~= uri.subrange(0, f));
        assert(t.subrange(0, f) =~= uri.subrange(0, f));
        assert(t[f] == uri[f]);
        lemma_first_index_prefix(uri.subrange(0, f), t, '?', 0);
        lemma_first_index_prefix(uri.subrange(0, f), uri, '?', 0);
        let rest = uri.subrange(f + 1, uri.len() as int).push('&');
        assert(query_of(r) =~= rest + padding_marker() + digits_of(n as nat));
        lemma_target_size_after_marker(rest, n as nat);
    } else {
        lemma_first_index_prefix(uri, t, '?', 0);
        assert(query_of(r) =~= Seq::<char>::empty() + padding_marker() + digits_of(n as nat));
        lemma_target_size_after_marker(Seq::<char>::empty(), n as nat);
    }
}

/// One path segment applied to the stack of resolved segments: empty and
/// `.` segments are dropped, `..` pops a segment if there is one.
pub open spec fn push_segment(stack: Seq<Seq<char>>, seg: Seq<char>) -> Seq<Seq<char>> {
    if seg.len() == 0 || seg == seq!['.'] {
        stack
    } else if seg == seq!['.', '.'] {
        if stack.len() > 0 {
            stack.drop_last()
        } else {
            stack
        }
    } else {
        stack.push(seg)
    }
}

/// The segments of `s`, split on `/`, applied in order to `stack`, where
/// `cur` holds the segment read so far.
pub open spec fn resolve_segments(stack: Seq<Seq<char>>, cur: Seq<char>, s: Seq<char>) -> Seq<
    Seq<char>,
>
    decreases s.len(),
{
    if s.len() == 0 {
        push_segment(stack, cur)
    } else if s[0] == '/' {
        resolve_segments(push_segment(stack, cur), Seq::empty(), s.drop_first())
    } else {
        resolve_segments(stack, cur.push(s[0]), s.drop_first())
    }
}

/// Each segment preceded by `/`.
pub open spec fn join_segments(stack: Seq<Seq<char>>) -> Seq<char>
    decreases stack.len(),
{
    if stack.len() == 0 {
        Seq::empty()
    } else {
        join_segments(stack.drop_last()) + seq!['/'] + stack.last()
    }
}

/// The path with `.` and `..` resolved syntactically.
pub open spec fn normalized_path(s: Seq<char>) -> Seq<char> {
    join_segments(resolve_segments(Seq::empty(), Seq::empty(), s))
}

/// The last index below `k` that holds `c`, or -1.
pub open spec fn last_index_before(s: Seq<char>, c: char, k: int) -> int
    decreases k,
{
    if k <= 0 {
        -1
    } else if s[k - 1] == c {
        k - 1
    } else {
        last_index_before(s, c, k - 1)
    }
}

/// The directory of a document path: what precedes its last `/`.
pub open spec fn directory_of(path: Seq<char>) -> Seq<char> {
    let i = last_index_before(path, '/', path.len() as int);
    if i < 0 {
        Seq::empty()
    } else {
        path.subrange(0, i)
    }
}

pub open spec fn starts_with(s: Seq<char>, prefix: Seq<char>) -> bool {
    occurs_at(s, prefix, 0)
}

pub open spec fn https_prefix() -> Seq<char> {
    seq!['h', 't', 't', 'p', 's', ':', '/', '/']
}

pub open spec fn http_prefix() -> Seq<char> {
    seq!['h', 't', 't', 'p', ':', '/', '/']
}

/// Whether a reference points to another origin.
pub open spec fn is_off_origin(relative: Seq<char>) -> bool {
    starts_with(relative, https_prefix()) || starts_with(relative, http_prefix())
}

/// The reference resolved against the document's directory, normalized.
pub open spec fn resolved_reference(relative: Seq<char>, html_path: Seq<char>) -> Seq<char> {
    let full = if relative.len() > 0 && relative[0] == '/' {
        relative
    } else {
        directory_of(html_path).push('/') + relative
    };
    normalized_path(full)
}

/// The filesystem path of a reference found in the document at
/// `html_path`: none for another origin, or when the resolved path does not
/// share the document path's first `alias` characters; otherwise `root`
/// followed by the resolved path without those characters.
pub open spec fn filesystem_path(
    root: Seq<char>,
    relative: Seq<char>,
    html_path: Seq<char>,
    alias: nat,
) -> Option<Seq<char>> {
    if is_off_origin(relative) {
        None
    } else {
        let abs = resolved_reference(relative, html_path);
        if alias <= abs.len() && alias <= html_path.len() && abs.subrange(0, alias as int)
            == html_path.subrange(0, alias as int) {
            Some(root + abs.subrange(alias as int, abs.len() as int))
        } else {
            None
        }
    }
}

/// Applies one segment to the stack, as `push_segment` says.
fn push_segment_exec(stack: &mut Vec<Vec<char>>, seg: Vec<char>)
    ensures
        views(final(stack)@) == push_segment(views(old(stack)@), seg@),
{
    let ghost old_views = views(stack@);
    if seg.len() == 0 || (seg.len() == 1 && seg[0] == '.') {
        if seg.len() == 1 {
            assert(seg@ =~= seq!['.']);
        }
        return ;
    }
    if seg.len() == 2 && seg[0] == '.' && seg[1] == '.' {
        assert(seg@ =~= seq!['.', '.']);
        if stack.len() > 0 {
            stack.pop();
            assert(views(stack@) =~= old_views.drop_last());
        }
        return ;
    }
    assert(seg@ != seq!['.']) by {
        if seg@ == seq!['.'] {
            assert(seg@[0] == '.');
        }
    }
    assert(seg@ != seq!['.', '.']) by {
        if seg@ == seq!['.', '.'] {
            assert(seg@[0] == '.' && seg@[1] == '.');
        }
    }
    stack.push(seg);
    assert(views(stack@) =~= old_views.push(stack@.last()@));
}

/// `normalized_path` of `s`.
pub fn normalize_path(s: &[char]) -> (r: Vec<char>)
    ensures
        r@ == normalized_path(s@),
{
    let mut stack: Vec<Vec<char>> = Vec::new();
    let mut cur: Vec<char> = Vec::new();
    let mut i: usize = 0;
    assert(views(stack@) =~= Seq::<Seq<char>>::empty());
    assert(s@.subrange(0, s@.len() as int) =~= s@);
    while i < s.len()
        invariant
            i <= s@.len(),
            resolve_segments(views(stack@), cur@, s@.subrange(i as int, s@.len() as int))
                == resolve_segments(Seq::empty(), Seq::empty(), s@),
        decreases s@.len() - i,
    {
        let ghost rest = s@.subrange(i as int, s@.len() as int);
        assert(rest.drop_first() =~= s@.subrange(i + 1, s@.len() as int));
        if s[i] == '/' {
            let seg = cur;
            push_segment_exec(&mut stack, seg);
            cur = Vec::new();
            assert(cur@ =~= Seq::<char>::empty());
        } else {
            cur.push(s[i]);
        }
        i = i + 1;
    }
    push_segment_exec(&mut stack, cur);
    assert(s@.subrange(i as int, s@.len() as int) =~= Seq::<char>::empty());
    let ghost segs = views(stack@);
    let mut out: Vec<char> = Vec::new();
    let mut j: usize = 0;
    while j < stack.len()
        invariant
            j <= stack@.len(),
            segs == views(stack@),
            out@ == join_segments(segs.subrange(0, j as int)),
        decreases stack@.len() - j,
    {
        assert(segs.subrange(0, j + 1).drop_last() =~= segs.subrange(0, j as int));
        out.push('/');
        let seg = &stack[j];
        let mut k: usize = 0;
        let ghost before = out@;
        while k < seg.len()
            invariant
                k <= seg@.len(),
                out@ == before + seg@.subrange(0, k as int),
            decreases seg@.len() - k,
        {
            out.push(seg[k]);
            k = k + 1;
            assert(out@ =~= before + seg@.subrange(0, k as int));
        }
        assert(seg@.subrange(0, k as int) =~= seg@);
        assert(segs[j as int] == seg@);
        j = j + 1;
    }
    assert(segs.subrange(0, j as int) =~= segs);
    out
}

/// The directory of a document path: what precedes its last `/`.
pub fn directory_exec(path: &[char]) -> (r: Vec<char>)
    ensures
        r@ == directory_of(path@),
{
    let mut k: usize = path.len();
    while k > 0
        invariant
            k <= path@.len(),
            last_index_before(path@, '/', path@.len() as int) == last_index_before(
                path@,
                '/',
                k as int,
            ),
        decreases k,
    {
        if path[k - 1] == '/' {
            let mut out: Vec<char> = Vec::new();
            let mut i: usize = 0;
            while i < k - 1
                invariant
                    i <= k - 1 < path@.len(),
                    out@ == path@.subrange(0, i as int),
                decreases k - 1 - i,
            {
                out.push(path[i]);
                i = i + 1;
            }
            return out;
        }
        k = k - 1;
    }
    Vec::new()
}

/// The filesystem path of a reference found in the document at `html_path`,
/// as `filesystem_path` states; none where the reference points to another
/// origin or escapes the alias prefix.
pub fn uri_to_abs_fs_path(root: &str, relative: &str, html_path: &str, alias: usize) -> (r: Option<
    String,
>)
    ensures
        r matches Some(p) ==> filesystem_path(root@, relative@, html_path@, alias as nat) == Some(
            p@,
        ),
        r is None ==> filesystem_path(root@, relative@, html_path@, alias as nat) is None,
{
    let rel = chars_of(relative);
    let https: Vec<char> = vec!['h', 't', 't', 'p', 's', ':', '/', '/'];
    let http: Vec<char> = vec!['h', 't', 't', 'p', ':', '/', '/'];
    assert(https@ =~= https_prefix());
    assert(http@ =~= http_prefix());
    if occurs_at_exec(&rel, &https, 0) || occurs_at_exec(&rel, &http, 0) {
        return None;
    }
    let html = chars_of(html_path);
    let mut full: Vec<char>;
    if rel.len() > 0 && rel[0] == '/' {
        full = rel;
    } else {
        full = directory_exec(&html);
        full.push('/');
        let mut tail = rel;
        full.append(&mut tail);
    }
    let abs = normalize_path(&full);
    assert(abs@ == resolved_reference(relative@, html_path@));
    assert(!is_off_origin(relative@));
    if alias > abs.len() || alias > html.len() {
        return None;
    }
    let mut i: usize = 0;
    while i < alias
        invariant
            i <= alias <= abs@.len(),
            alias <= html@.len(),
            abs@.subrange(0, i as int) == html@.subrange(0, i as int),
            abs@ == resolved_reference(relative@, html_path@),
            html@ == html_path@,
            !is_off_origin(relative@),
        decreases alias - i,
    {
        if abs[i] != html[i] {
            assert(abs@.subrange(0, alias as int)[i as int] != html@.subrange(0, alias as int)[i as int]);
            return None;
        }
        assert(abs@.subrange(0, i + 1) =~= abs@.subrange(0, i as int).push(abs@[i as int]));
        assert(html@.subrange(0, i + 1) =~= html@.subrange(0, i as int).push(html@[i as int]));
        i = i + 1;
    }
    assert(abs@.subrange(0, i as int) == abs@.subrange(0, alias as int));
    let mut out = chars_of(root);
    let mut j: usize = alias;
    let ghost base = out@;
    while j < abs.len()
        invariant
            alias <= j <= abs@.len(),
            out@ == base + abs@.subrange(alias as int, j as int),
            base == root@,
            abs@ == resolved_reference(relative@, html_path@),
            abs@.subrange(0, alias as int) == html_path@.subrange(0, alias as int),
            alias <= html_path@.len(),
            !is_off_origin(relative@),
        decreases abs@.len() - j,
    {
        out.push(abs[j]);
        j = j + 1;
        assert(out@ =~= base + abs@.subrange(alias as int, j as int));
    }
    Some(string_of(&out))
}

/// The filesystem path of a reference, with no alias prefix to keep.
pub fn absolute_path(root: &str, relative: &str, html_path: &str) -> (r: Option<String>)
    ensures
        r matches Some(p) ==> filesystem_path(root@, relative@, html_path@, 0) == Some(p@),
        r is None ==> filesystem_path(root@, relative@, html_path@, 0) is None,
{
    uri_to_abs_fs_path(root, relative, html_path, 0)
}

/// `s` with every occurrence of `pat`, from the left and without overlap,
/// replaced by `rep`.
pub open spec fn replace_all(s: Seq<char>, pat: Seq<char>, rep: Seq<char>) -> Seq<char>
    recommends
        pat.len() > 0,
    decreases s.len(),
{
    if s.len() == 0 || pat.len() == 0 {
        s
    } else if occurs_at(s, pat, 0) {
        rep + replace_all(s.subrange(pat.len() as int, s.len() as int), pat, rep)
    } else {
        seq![s[0]] + replace_all(s.drop_first(), pat, rep)
    }
}

/// `s` with every occurrence of the non-empty `pat` replaced by `rep`.
pub fn replace_text(s: &str, pat: &str, rep: &str) -> (r: String)
    requires
        pat@.len() > 0,
    ensures
        r@ == replace_all(s@, pat@, rep@),
{
    let sc = chars_of(s);
    let pc = chars_of(pat);
    let rc = chars_of(rep);
    let mut out: Vec<char> = Vec::new();
    let mut i: usize = 0;
    assert(sc@.subrange(0, sc@.len() as int) =~= sc@);
    while i < sc.len()
        invariant
            i <= sc@.len(),
            pc@ == pat@,
            pc@.len() > 0,
            rc@ == rep@,
            sc@ == s@,
            out@ + replace_all(sc@.subrange(i as int, sc@.len() as int), pc@, rc@) == replace_all(
                s@,
                pat@,
                rep@,
            ),
        decreases sc@.len() - i,
    {
        let ghost rest = sc@.subrange(i as int, sc@.len() as int);
        let ghost before = out@;
        if occurs_at_exec(&sc, &pc, i) {
            assert(rest.subrange(0, pc@.len() as int) =~= sc@.subrange(i as int, i + pc@.len()));
            assert(rest.subrange(pc@.len() as int, rest.len() as int) =~= sc@.subrange(
                i + pc@.len(),
                sc@.len() as int,
            ));
            let mut k: usize = 0;
            while k < rc.len()
                invariant
                    k <= rc@.len(),
                    out@ == before + rc@.subrange(0, k as int),
                decreases rc@.len() - k,
            {
                out.push(rc[k]);
                k = k + 1;
                assert(out@ =~= before + rc@.subrange(0, k as int));
            }
            assert(rc@.subrange(0, k as int) =~= rc@);
            assert(out@ + replace_all(sc@.subrange(i + pc@.len(), sc@.len() as int), pc@, rc@)
                =~= before + (rc@ + replace_all(
                sc@.subrange(i + pc@.len(), sc@.len() as int),
                pc@,
                rc@,
            )));
            i = i + pc.len();
        } else {
            assert(!occurs_at(rest, pc@, 0)) by {
                if occurs_at(rest, pc@, 0) {
                    assert(rest.subrange(0, pc@.len() as int) =~= sc@.subrange(
                        i as int,
                        i + pc@.len(),
                    ));
                }
            }
            assert(rest.drop_first() =~= sc@.subrange(i + 1, sc@.len() as int));
            out.push(sc[i]);
            assert(out@ + replace_all(sc@.subrange(i + 1, sc@.len() as int), pc@, rc@) =~= before
                + (seq![sc@[i as int]] + replace_all(
                sc@.subrange(i + 1, sc@.len() as int),
                pc@,
                rc@,
            )));
            i = i + 1;
        }
    }
    assert(sc@.subrange(i as int, sc@.len() as int) =~= Seq::<char>::empty());
    assert(out@ + Seq::<char>::empty() =~= out@);
    string_of(&out)
}

/// The content root of a virtual host: `$http_host` in `root` replaced by
/// the host's name.
pub fn expand_host(root: &str, http_host: &str) -> (r: String)
    ensures
        r@ == replace_all(root@, "$http_host"@, http_host@),
{
    proof {
        reveal_strlit("$http_host");
    }
    replace_text(root, "$http_host", http_host)
}

} // verus!
