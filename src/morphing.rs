//! The two morphing strategies, which decide how many resources a page
//! should have and the size of each, the rewriting of the page's references
//! that carries those sizes, and the pipeline around them.
use kuchiki::NodeRef;
use vstd::prelude::*;

use crate::deterministic::{get_multiple, get_multiples_in_range, multiple_fits, next_multiple};
use crate::distribution::{sample_ge, sample_ge_many, Sampler};
use crate::error::MorphError;
use crate::dom::{append_child, create_element, element_name, equals_literal, first_match, node_set_attribute, serialize_html};
use crate::objects::{is_padding_object, needed_size, Object, ObjectKind};
use crate::pad::{get_html_padding, html_close, html_open, wrapped_filler};
use crate::parsing::{padded_reference, padded_reference_string};
use crate::dom::opt_view;

verus! {

/// A resource kept as it was but for its target size.
pub open spec fn same_resource(a: Object, b: Object) -> bool {
    &&& a.kind == b.kind
    &&& a.content == b.content
    &&& a.node == b.node
    &&& a.uri == b.uri
}

/// The size a resource needs, as `needed_size` states; none where it does
/// not fit a `usize`.
pub fn needed_size_exec(o: &Object) -> (r: Option<usize>)
    ensures
        r matches Some(v) ==> v as nat == needed_size(*o),
        r is None ==> needed_size(*o) > usize::MAX,
{
    let extra: usize = match o.kind {
        ObjectKind::CSS => 4,
        _ => 0,
    };
    if o.content.len() > usize::MAX - extra {
        None
    } else {
        Some(o.content.len() + extra)
    }
}

/// A synthetic resource whose size is a multiple of `obj_size` in
/// `[obj_size, max_obj_size]`.
pub open spec fn uniform_fake(o: Object, obj_size: usize, max_obj_size: usize) -> bool {
    exists|s: usize| is_padding_object(o, s) && s % obj_size == 0 && obj_size <= s <= max_obj_size
}

/// Whether the deterministic strategy can run on `objs` with these bounds.
pub open spec fn deterministic_ok(objs: Seq<Object>, obj_num: usize, obj_size: usize, max_obj_size: usize) -> bool {
    &&& obj_num >= 1
    &&& obj_size >= 1
    &&& obj_size <= max_obj_size
    &&& max_obj_size % obj_size == 0
    &&& multiple_fits(obj_num as nat, objs.len())
    &&& forall|i: int| 0 <= i < objs.len() ==> multiple_fits(obj_size as nat, needed_size(#[trigger] objs[i]))
}

/// What deterministic morphing makes of `old`: the count rounded up to a
/// multiple of `obj_num`, each real resource kept with its needed size
/// rounded up to a multiple of `obj_size`, then uniform synthetic ones.
pub open spec fn deterministic_outcome(
    old: Seq<Object>,
    new: Seq<Object>,
    obj_num: usize,
    obj_size: usize,
    max_obj_size: usize,
) -> bool {
    let n = old.len();
    &&& new.len() == next_multiple(obj_num as nat, n as nat)
    &&& forall|i: int|
        0 <= i < n ==> same_resource(#[trigger] new[i], old[i]) && (new[i].target_size matches Some(
            t,
        ) && t == next_multiple(obj_size as nat, needed_size(old[i])))
    &&& forall|i: int| n <= i < new.len() ==> uniform_fake(#[trigger] new[i], obj_size, max_obj_size)
}

/// Deterministic morphing: the resource count is rounded up to a multiple
/// of `obj_num`, each real resource's size up to a multiple of `obj_size`,
/// and synthetic resources of uniform multiples of `obj_size` up to
/// `max_obj_size` make up the count. Fails with `InvalidRange`, changing
/// nothing, where the bounds are inconsistent or the sizes would overflow.
pub fn morph_deterministic(
    objects: &mut Vec<Object>,
    obj_num: usize,
    obj_size: usize,
    max_obj_size: usize,
) -> (r: Result<(), MorphError>)
    ensures
        r is Ok <==> deterministic_ok(old(objects)@, obj_num, obj_size, max_obj_size),
        r is Err ==> r == Err::<(), MorphError>(MorphError::InvalidRange) && final(objects)@ == old(objects)@,
        r is Ok ==> final(objects)@.len() >= old(objects)@.len(),
        r is Ok ==> deterministic_outcome(old(objects)@, final(objects)@, obj_num, obj_size, max_obj_size),
{
    let n = objects.len();
    if obj_num == 0 || obj_size == 0 || obj_size > max_obj_size || max_obj_size % obj_size != 0
        || (n > 0 && n - 1 > usize::MAX - obj_num) {
        return Err(MorphError::InvalidRange);
    }
    // check every resource first, so that a refusal changes nothing
    let mut i: usize = 0;
    while i < n
        invariant
            i <= n == objects@.len(),
            obj_size >= 1,
            objects@ == old(objects)@,
            forall|k: int| 0 <= k < i ==> multiple_fits(obj_size as nat, needed_size(#[trigger] objects@[k])),
        decreases n - i,
    {
        match needed_size_exec(&objects[i]) {
            Some(need) => {
                if need > 0 && need - 1 > usize::MAX - obj_size {
                    return Err(MorphError::InvalidRange);
                }
            },
            None => {
                return Err(MorphError::InvalidRange);
            },
        }
        i = i + 1;
    }
    let ghost old_objs = objects@;
    let target_count = get_multiple(obj_num, n);
    let mut i: usize = 0;
    while i < n
        invariant
            i <= n == objects@.len() == old_objs.len(),
            obj_size >= 1,
            old_objs == old(objects)@,
            target_count == next_multiple(obj_num as nat, n as nat),
            target_count >= n,
            deterministic_ok(old_objs, obj_num, obj_size, max_obj_size),
            forall|k: int| 0 <= k < n ==> multiple_fits(obj_size as nat, needed_size(#[trigger] old_objs[k])),
            forall|k: int| i <= k < n ==> #[trigger] objects@[k] == old_objs[k],
            forall|k: int|
                0 <= k < i ==> same_resource(#[trigger] objects@[k], old_objs[k])
                    && (objects@[k].target_size matches Some(t) && t == next_multiple(
                    obj_size as nat,
                    needed_size(old_objs[k]),
                )),
        decreases n - i,
    {
        let need = match needed_size_exec(&objects[i]) {
            Some(v) => v,
            None => 0,
        };
        assert(objects@[i as int] == old_objs[i as int]);
        let t = get_multiple(obj_size, need);
        objects[i].target_size = Some(t);
        i = i + 1;
    }
    let fake_count: usize = target_count - n;
    let sizes = match get_multiples_in_range(obj_size, max_obj_size, fake_count) {
        Ok(v) => v,
        Err(e) => {
            return Err(e);
        },
    };
    let mut j: usize = 0;
    while j < fake_count
        invariant
            j <= fake_count == sizes@.len(),
            objects@.len() == n + j,
            old_objs == old(objects)@,
            fake_count == target_count - n,
            target_count == next_multiple(obj_num as nat, n as nat),
            deterministic_ok(old_objs, obj_num, obj_size, max_obj_size),
            n == old_objs.len(),
            forall|k: int|
                0 <= k < n ==> same_resource(#[trigger] objects@[k], old_objs[k])
                    && (objects@[k].target_size matches Some(t) && t == next_multiple(
                    obj_size as nat,
                    needed_size(old_objs[k]),
                )),
            forall|k: int|
                0 <= k < fake_count ==> #[trigger] sizes@[k] % obj_size == 0 && obj_size <= sizes@[k]
                    <= max_obj_size,
            forall|k: int|
                n <= k < n + j ==> is_padding_object(#[trigger] objects@[k], sizes@[k - n]),
        decreases fake_count - j,
    {
        objects.push(Object::padding(sizes[j]));
        j = j + 1;
    }
    assert forall|k: int| n <= k < objects@.len() implies uniform_fake(
        #[trigger] objects@[k],
        obj_size,
        max_obj_size,
    ) by {
        assert(is_padding_object(objects@[k], sizes@[k - n]));
        assert(sizes@[k - n] % obj_size == 0);
    }
    Ok(())
}

/// Whether resource `a` comes before resource `b` by content length, ties
/// broken by position.
pub open spec fn length_before(objs: Seq<Object>, a: usize, b: usize) -> bool {
    objs[a as int].content@.len() < objs[b as int].content@.len() || (objs[a as int].content@.len()
        == objs[b as int].content@.len() && a <= b)
}

/// `order` lists every position of `objs` once, by ascending content length.
pub open spec fn is_length_order(objs: Seq<Object>, order: Seq<usize>) -> bool {
    &&& order.len() == objs.len()
    &&& forall|i: int| 0 <= i < order.len() ==> #[trigger] order[i] < objs.len()
    &&& forall|i: int, j: int| 0 <= i < j < order.len() ==> order[i] != order[j]
    &&& forall|i: int, j: int|
        0 <= i < j < order.len() ==> length_before(objs, #[trigger] order[i], #[trigger] order[j])
}

/// The positions of `objs` by ascending content length.
pub fn length_order(objs: &Vec<Object>) -> (r: Vec<usize>)
    ensures
        is_length_order(objs@, r@),
{
    let n = objs.len();
    let mut order: Vec<usize> = Vec::new();
    let mut k: usize = 0;
    while k < n
        invariant
            k <= n == objs@.len(),
            order@.len() == k,
            forall|i: int| 0 <= i < k ==> #[trigger] order@[i] == i,
        decreases n - k,
    {
        order.push(k);
        k = k + 1;
    }
    // selection sort
    let mut i: usize = 0;
    while i < n
        invariant
            i <= n == objs@.len() == order@.len(),
            forall|a: int| 0 <= a < n ==> #[trigger] order@[a] < n,
            forall|a: int, b: int| 0 <= a < b < n ==> order@[a] != order@[b],
            forall|a: int, b: int|
                0 <= a < b < n && a < i ==> length_before(objs@, #[trigger] order@[a], #[trigger] order@[b]),
        decreases n - i,
    {
        let mut m: usize = i;
        let mut j: usize = i + 1;
        while j < n
            invariant
                i <= m < n,
                i < j <= n,
                n == objs@.len() == order@.len(),
                forall|a: int| 0 <= a < n ==> #[trigger] order@[a] < n,
                forall|b: int| i <= b < j ==> length_before(objs@, order@[m as int], #[trigger] order@[b]),
            decreases n - j,
        {
            let lj = objs[order[j]].content.len();
            let lm = objs[order[m]].content.len();
            if lj < lm || (lj == lm && order[j] <= order[m]) {
                m = j;
            }
            j = j + 1;
        }
        let x = order[i];
        let y = order[m];
        let ghost before = order@;
        order[i] = y;
        order[m] = x;
        assert(order@ == before.update(i as int, y).update(m as int, x));
        assert forall|a: int, b: int| 0 <= a < b < n implies order@[a] != order@[b] by {
            assert(before[a] != before[b] || a == b);
        }
        assert forall|a: int, b: int|
            0 <= a < b < n && a < i + 1 implies length_before(objs@, #[trigger] order@[a], #[trigger] order@[b]) by {
            if a < i {
                assert(length_before(objs@, before[a], before[b]));
                assert(length_before(objs@, before[a], before[m as int]));
                assert(length_before(objs@, before[a], before[i as int]));
            } else {
                assert(length_before(objs@, before[m as int], before[b]));
                assert(length_before(objs@, before[m as int], before[i as int]));
            }
        }
        i = i + 1;
    }
    order
}

/// Relies on `slice::sort_unstable`: the same values, in ascending order.
#[verifier::external_body]
fn sort_ascending(v: &mut Vec<usize>)
    ensures
        final(v)@.to_multiset() == old(v)@.to_multiset(),
        forall|i: int, j: int| 0 <= i <= j < final(v)@.len() ==> final(v)@[i] <= final(v)@[j],
{
    v.sort_unstable()
}

/// Greedy matching of ascending sizes to resources by ascending need, after
/// the first `i` sizes: the sizes given, in order, to the leading resources,
/// and those left over for synthetic resources. Each size goes to the next
/// resource if it is at least that resource's need, else to a synthetic one.
pub open spec fn greedy(needs: Seq<nat>, sizes: Seq<usize>, i: nat) -> (Seq<usize>, Seq<usize>)
    decreases i,
{
    if i == 0 || i > sizes.len() {
        (Seq::empty(), Seq::empty())
    } else {
        let prev = greedy(needs, sizes, (i - 1) as nat);
        let s = sizes[i - 1];
        if prev.0.len() < needs.len() && s >= needs[prev.0.len() as int] {
            (prev.0.push(s), prev.1)
        } else {
            (prev.0, prev.1.push(s))
        }
    }
}

pub proof fn lemma_greedy(needs: Seq<nat>, sizes: Seq<usize>, i: nat)
    requires
        i <= sizes.len(),
    ensures
        greedy(needs, sizes, i).0.len() <= needs.len(),
        greedy(needs, sizes, i).0.len() + greedy(needs, sizes, i).1.len() == i,
        forall|k: int|
            0 <= k < greedy(needs, sizes, i).0.len() ==> #[trigger] greedy(needs, sizes, i).0[k]
                >= needs[k],
    decreases i,
{
    if i > 0 {
        lemma_greedy(needs, sizes, (i - 1) as nat);
    }
}

/// The needs of the resources, in the given order.
pub open spec fn needs_in(objs: Seq<Object>, order: Seq<usize>) -> Seq<nat> {
    Seq::new(order.len(), |k: int| needed_size(objs[order[k] as int]))
}

/// What the probabilistic strategy makes of `old` with the ascending
/// `sizes` and the length order `order`: each matched resource gets its
/// size, the others keep theirs, the leftover sizes become synthetic
/// resources after the real ones, and `unpadded` lists the unmatched.
pub open spec fn matched_as(
    old: Seq<Object>,
    new: Seq<Object>,
    order: Seq<usize>,
    sizes: Seq<usize>,
    unpadded: Seq<usize>,
) -> bool {
    let n = old.len();
    let g = greedy(needs_in(old, order), sizes, sizes.len());
    &&& new.len() == n + g.1.len()
    &&& forall|i: int| 0 <= i < n ==> same_resource(#[trigger] new[i], old[i])
    &&& forall|k: int| 0 <= k < g.0.len() ==> new[order[k] as int].target_size == Some(#[trigger] g.0[k])
    &&& forall|k: int| g.0.len() <= k < n ==> new[#[trigger] order[k] as int].target_size == old[order[k] as int].target_size
    &&& forall|j: int| 0 <= j < g.1.len() ==> is_padding_object(new[n + j], #[trigger] g.1[j])
    &&& unpadded == order.subrange(g.0.len() as int, n as int)
}

/// A resource at position `i` that had no target size and got one got at
/// least what it needs.
pub open spec fn sizes_cover(old: Seq<Object>, new: Seq<Object>, i: usize) -> bool {
    old[i as int].target_size is None ==> (new[i as int].target_size matches Some(t) ==> t
        >= needed_size(old[i as int]))
}

pub open spec fn sizes_cover_needs(old: Seq<Object>, new: Seq<Object>, order: Seq<usize>) -> bool {
    forall|k: int| 0 <= k < order.len() ==> sizes_cover(old, new, #[trigger] order[k])
}

/// The probabilistic strategy on given draws: `sizes`, ascending, are
/// matched greedily to the resources by ascending content length; returns
/// the positions of the resources left unmatched.
pub fn morph_with_draws(objects: &mut Vec<Object>, sizes: &Vec<usize>) -> (unpadded: Vec<usize>)
    requires
        forall|i: int, j: int| 0 <= i <= j < sizes@.len() ==> sizes@[i] <= sizes@[j],
    ensures
        exists|order: Seq<usize>|
            is_length_order(old(objects)@, order) && matched_as(
                old(objects)@,
                final(objects)@,
                order,
                sizes@,
                unpadded@,
            ) && sizes_cover_needs(old(objects)@, final(objects)@, order),
{
    let ghost old_objs = objects@;
    let n = objects.len();
    let order = length_order(objects);
    let ghost needs = needs_in(old_objs, order@);
    let mut fakes: Vec<usize> = Vec::new();
    let mut c: usize = 0;
    let mut i: usize = 0;
    while i < sizes.len()
        invariant
            n == old_objs.len() == objects@.len(),
            is_length_order(old_objs, order@),
            needs == needs_in(old_objs, order@),
            i <= sizes@.len(),
            greedy(needs, sizes@, i as nat).0.len() == c,
            greedy(needs, sizes@, i as nat).1 == fakes@,
            c <= n,
            forall|x: int| 0 <= x < n ==> same_resource(#[trigger] objects@[x], old_objs[x]),
            forall|k: int|
                0 <= k < c ==> objects@[order@[k] as int].target_size == Some(
                    #[trigger] greedy(needs, sizes@, i as nat).0[k],
                ),
            forall|k: int|
                c <= k < n ==> objects@[#[trigger] order@[k] as int].target_size == old_objs[order@[k] as int].target_size,
        decreases sizes@.len() - i,
    {
        proof {
            lemma_greedy(needs, sizes@, i as nat);
        }
        let s = sizes[i];
        let mut taken = false;
        if c < n {
            let idx = order[c];
            match needed_size_exec(&objects[idx]) {
                Some(need) => {
                    if s >= need {
                        objects[idx].target_size = Some(s);
                        taken = true;
                    }
                },
                None => {},
            }
        }
        if taken {
            c = c + 1;
        } else {
            fakes.push(s);
        }
        proof {
            let g0 = greedy(needs, sizes@, i as nat);
            let g1 = greedy(needs, sizes@, (i + 1) as nat);
            assert(g1 == (if g0.0.len() < needs.len() && s >= needs[g0.0.len() as int] {
                (g0.0.push(s), g0.1)
            } else {
                (g0.0, g0.1.push(s))
            }));
            assert forall|k: int| c <= k < n implies objects@[#[trigger] order@[k] as int].target_size
                == old_objs[order@[k] as int].target_size by {
                if k > 0 {
                    assert(order@[k] != order@[k - 1]);
                }
            }
            assert forall|k: int| 0 <= k < c implies objects@[order@[k] as int].target_size == Some(
                #[trigger] g1.0[k],
            ) by {
                if taken && k == c - 1 {
                } else {
                    assert(order@[k] != order@[c - 1] || !taken);
                }
            }
        }
        i = i + 1;
    }
    proof {
        lemma_greedy(needs, sizes@, sizes@.len());
        assert(sizes@.len() == i);
    }
    let ghost mid = objects@;
    let mut j: usize = 0;
    while j < fakes.len()
        invariant
            n == old_objs.len(),
            objects@.len() == n + j,
            j <= fakes@.len(),
            mid.len() == n,
            forall|x: int| 0 <= x < n ==> #[trigger] objects@[x] == mid[x],
            forall|k: int| 0 <= k < j ==> is_padding_object(objects@[n + k], #[trigger] fakes@[k]),
        decreases fakes@.len() - j,
    {
        objects.push(Object::padding(fakes[j]));
        j = j + 1;
    }
    let mut unpadded: Vec<usize> = Vec::new();
    let mut k: usize = c;
    while k < n
        invariant
            c <= k <= n == order@.len(),
            unpadded@ == order@.subrange(c as int, k as int),
        decreases n - k,
    {
        unpadded.push(order[k]);
        k = k + 1;
        assert(unpadded@ =~= order@.subrange(c as int, k as int));
    }
    proof {
        let g = greedy(needs, sizes@, sizes@.len());
        assert(g.1 == fakes@);
        assert forall|k: int| 0 <= k < g.0.len() implies objects@[order@[k] as int].target_size
            == Some(#[trigger] g.0[k]) by {
            assert(objects@[order@[k] as int] == mid[order@[k] as int]);
        }
        assert forall|k: int| g.0.len() <= k < n implies objects@[#[trigger] order@[k] as int].target_size
            == old_objs[order@[k] as int].target_size by {
            assert(objects@[order@[k] as int] == mid[order@[k] as int]);
        }
        assert forall|x: int| 0 <= x < n implies same_resource(#[trigger] objects@[x], old_objs[x]) by {
            assert(objects@[x] == mid[x]);
        }
        assert forall|x: int| 0 <= x < g.1.len() implies is_padding_object(objects@[n + x], #[trigger] g.1[x]) by {
            assert(g.1[x] == fakes@[x]);
        }
        assert(matched_as(old_objs, objects@, order@, sizes@, unpadded@));
        assert forall|k: int| 0 <= k < n implies sizes_cover(old_objs, objects@, #[trigger] order@[k]) by {
            if k < g.0.len() {
                assert(g.0[k] >= needs[k]);
            }
        }
    }
    unpadded
}

/// What holds of every outcome of the probabilistic strategy: for some
/// ascending sizes, at least one per real resource and each at least 1,
/// `new` is `old` matched with them as `morph_with_draws` says.
pub open spec fn drawn_outcome(old: Seq<Object>, new: Seq<Object>, unpadded: Seq<usize>) -> bool {
    exists|sizes: Seq<usize>, order: Seq<usize>|
        #![trigger matched_as(old, new, order, sizes, unpadded)]
        sizes.len() >= old.len() && (forall|i: int| 0 <= i < sizes.len() ==> #[trigger] sizes[i] >= 1)
            && (forall|i: int, j: int| 0 <= i <= j < sizes.len() ==> sizes[i] <= sizes[j])
            && is_length_order(old, order) && matched_as(old, new, order, sizes, unpadded)
            && sizes_cover_needs(old, new, order)
}

/// Probabilistic morphing: the resource count is drawn from `count` with
/// the number of real resources as floor, that many sizes are drawn from
/// `size` with floor 1, and the sizes, ascending, are matched greedily as
/// `morph_with_draws` says. Fails, changing nothing, where a draw exhausts
/// its budget; otherwise returns the positions of the resources left
/// unmatched.
pub fn morph_from_distribution<S: Sampler>(
    objects: &mut Vec<Object>,
    count: &mut S,
    size: &mut S,
) -> (r: Result<Vec<usize>, MorphError>)
    ensures
        r matches Err(e) ==> e is SamplingExhausted && final(objects)@ == old(objects)@,
        r is Ok ==> final(objects)@.len() >= old(objects)@.len(),
        r matches Ok(unpadded) ==> drawn_outcome(old(objects)@, final(objects)@, unpadded@),
{
    let n = objects.len();
    let target_count = match sample_ge(count, n) {
        Ok(c) => c,
        Err(e) => {
            return Err(e);
        },
    };
    let mut sizes = match sample_ge_many(size, 1, target_count) {
        Ok(v) => v,
        Err(e) => {
            return Err(e);
        },
    };
    let ghost drawn = sizes@;
    sort_ascending(&mut sizes);
    proof {
        assert forall|i: int| 0 <= i < sizes@.len() implies #[trigger] sizes@[i] >= 1 by {
            sizes@.to_multiset_ensures();
            drawn.to_multiset_ensures();
            assert(sizes@.contains(sizes@[i]));
            assert(sizes@.to_multiset().count(sizes@[i]) > 0);
            assert(drawn.to_multiset().count(sizes@[i]) > 0);
            assert(drawn.contains(sizes@[i]));
            let j = choose|j: int| 0 <= j < drawn.len() && drawn[j] == sizes@[i];
            assert(drawn[j] >= 1);
        }
        sizes@.to_multiset_ensures();
        drawn.to_multiset_ensures();
    }
    let ghost old_objs = objects@;
    let unpadded = morph_with_draws(objects, &sizes);
    proof {
        assert(sizes@.len() == drawn.len());
        let order = choose|order: Seq<usize>|
            is_length_order(old_objs, order) && matched_as(
                old_objs,
                objects@,
                order,
                sizes@,
                unpadded@,
            ) && sizes_cover_needs(old_objs, objects@, order);
        lemma_greedy(needs_in(old_objs, order), sizes@, sizes@.len());
        assert(sizes@.len() >= old_objs.len());
        assert(sizes@.len() >= old_objs.len() && (forall|i: int|
            0 <= i < sizes@.len() ==> #[trigger] sizes@[i] >= 1) && (forall|i: int, j: int|
            0 <= i <= j < sizes@.len() ==> sizes@[i] <= sizes@[j]) && is_length_order(
            old_objs,
            order,
        ) && matched_as(old_objs, objects@, order, sizes@, unpadded@) && sizes_cover_needs(
            old_objs,
            objects@,
            order,
        ));
        assert(old_objs == old(objects)@);
        assert(drawn_outcome(old_objs, objects@, unpadded@));
    }
    Ok(unpadded)
}

/// The reference of a resource with its target size appended, for one
/// that has a target size.
pub fn reference_with_padding(object: &Object) -> (r: Option<String>)
    ensures
        object.target_size is None ==> r is None,
        object.target_size matches Some(t) ==> r matches Some(s) && s@ == padded_reference(
            object.uri@,
            t as nat,
        ),
{
    match object.target_size {
        Some(t) => Some(padded_reference_string(object.uri.as_str(), t)),
        None => None,
    }
}

/// The attribute that carries an element's reference: `src` of an image or
/// script, `href` of a link.
pub open spec fn attribute_for(name: Seq<char>) -> Option<Seq<char>> {
    if name == "img"@ || name == "script"@ {
        Some("src"@)
    } else if name == "link"@ {
        Some("href"@)
    } else {
        None
    }
}

/// The attribute that carries the reference of an element named `name`.
pub fn reference_attribute(name: &str) -> (r: Option<String>)
    ensures
        opt_view(r) == attribute_for(name@),
{
    if equals_literal(name, "img") || equals_literal(name, "script") {
        Some(String::from_str("src"))
    } else if equals_literal(name, "link") {
        Some(String::from_str("href"))
    } else {
        None
    }
}

/// What rewriting the reference of `o` wrote: nothing for a resource
/// without a target size or element; otherwise, if anything, the padded
/// reference into the attribute that carries the reference of some element
/// name.
pub open spec fn written_ref(o: Object, w: Option<(String, String)>) -> bool {
    &&& (o.target_size is None || o.node is None) ==> w is None
    &&& w matches Some((a, v)) ==> o.target_size is Some && v@ == padded_reference(
        o.uri@,
        o.target_size->Some_0 as nat,
    ) && exists|name: Seq<char>| attribute_for(name) == Some(a@)
}

/// Writes the padded reference of a resource back to its element, into the
/// attribute that `reference_attribute` names for it; returns the attribute
/// and the value written.
pub fn append_ref(object: &Object) -> (r: Option<(String, String)>)
    ensures
        written_ref(*object, r),
{
    if let (Some(link), Some(node)) = (reference_with_padding(object), &object.node) {
        if let Some(name) = element_name(node) {
            if let Some(attr) = reference_attribute(name.as_str()) {
                node_set_attribute(node, attr.as_str(), link.clone());
                return Some((attr, link));
            }
        }
    }
    None
}

/// The path that synthetic resources are requested under.
pub open spec fn fake_image_path() -> Seq<char> {
    "/__alpaca_fake_image.png"@
}

/// Appends a hidden image (`style="visibility:hidden"`) for each synthetic
/// resource to the body, or to the document where it has no body; each
/// requests the fake image with its target size. Returns the `src` written
/// for each, in order.
pub fn add_padding_objects(document: &NodeRef, objects: &[Object]) -> (r: Vec<String>)
    requires
        forall|i: int| 0 <= i < objects@.len() ==> (#[trigger] objects@[i]).target_size is Some,
    ensures
        r@.len() == objects@.len(),
        forall|i: int|
            0 <= i < objects@.len() ==> (#[trigger] r@[i])@ == padded_reference(
                fake_image_path(),
                objects@[i].target_size->Some_0 as nat,
            ),
{
    let parent = match first_match(document, "body") {
        Some(body) => body,
        None => document.clone(),
    };
    let mut written: Vec<String> = Vec::new();
    let mut i: usize = 0;
    while i < objects.len()
        invariant
            i <= objects@.len(),
            written@.len() == i,
            forall|k: int| 0 <= k < objects@.len() ==> (#[trigger] objects@[k]).target_size is Some,
            forall|k: int|
                0 <= k < i ==> (#[trigger] written@[k])@ == padded_reference(
                    fake_image_path(),
                    objects@[k].target_size->Some_0 as nat,
                ),
        decreases objects@.len() - i,
    {
        let t = match objects[i].target_size {
            Some(t) => t,
            None => 0,
        };
        let src = padded_reference_string("/__alpaca_fake_image.png", t);
        let elem = create_element("img");
        node_set_attribute(&elem, "src", src.clone());
        node_set_attribute(&elem, "style", String::from_str("visibility:hidden"));
        append_child(&parent, elem);
        written.push(src);
        i = i + 1;
    }
    written
}

/// Rewrites the references of the first `n` (real) resources, and adds the
/// remaining (synthetic) ones to the document; returns what was written for
/// each, as `append_ref` and `add_padding_objects` return it.
pub fn insert_objects_refs(document: &NodeRef, objects: &Vec<Object>, n: usize) -> (r: (
    Vec<Option<(String, String)>>,
    Vec<String>,
))
    requires
        n <= objects@.len(),
        forall|i: int| n <= i < objects@.len() ==> (#[trigger] objects@[i]).target_size is Some,
    ensures
        r.0@.len() == n,
        forall|i: int| 0 <= i < n ==> written_ref(objects@[i], #[trigger] r.0@[i]),
        r.1@.len() == objects@.len() - n,
        forall|j: int|
            0 <= j < objects@.len() - n ==> (#[trigger] r.1@[j])@ == padded_reference(
                fake_image_path(),
                objects@[n + j].target_size->Some_0 as nat,
            ),
{
    let mut rewritten: Vec<Option<(String, String)>> = Vec::new();
    let mut i: usize = 0;
    while i < n
        invariant
            n <= objects@.len(),
            i <= n,
            rewritten@.len() == i,
            forall|k: int| 0 <= k < i ==> written_ref(objects@[k], #[trigger] rewritten@[k]),
        decreases n - i,
    {
        let w = append_ref(&objects[i]);
        rewritten.push(w);
        i = i + 1;
    }
    let rest = vstd::slice::slice_subrange(objects.as_slice(), n, objects.len());
    assert(rest@ =~= objects@.subrange(n as int, objects@.len() as int));
    let fakes = add_padding_objects(document, rest);
    (rewritten, fakes)
}

/// A morphing request: the page or resource, where its content lies, and
/// the configuration of both strategies.
pub struct MorphInfo {
    /// The page, or the resource being served.
    pub content: Vec<u8>,
    /// The content root; `$http_host` stands for the host's name.
    pub root: String,
    /// The path of the requested document.
    pub uri: String,
    pub http_host: String,
    /// The length of the alias prefix that resolved paths must share.
    pub alias: usize,
    /// The query string of a resource request.
    pub query: String,
    pub content_type: String,
    pub probabilistic: bool,
    /// Descriptions of the page size, resource count and resource size
    /// distributions.
    pub dist_html_size: String,
    pub dist_obj_number: String,
    pub dist_obj_size: String,
    pub obj_num: usize,
    pub obj_size: usize,
    pub max_obj_size: usize,
}

/// How a page is morphed.
pub enum Strategy<S> {
    /// Counts rounded to multiples of `obj_num`, sizes to multiples of
    /// `obj_size`, synthetic sizes up to `max_obj_size`.
    Deterministic { obj_num: usize, obj_size: usize, max_obj_size: usize },
    /// Page size, resource count and resource size drawn from distributions.
    Probabilistic { html: S, count: S, size: S },
    /// No strategy could be set up (say, its distributions were refused):
    /// the page is served as it is.
    Unmorphed,
}

/// `new` is `old` followed by an HTML comment of alphanumeric filler, with
/// at least the seven bytes of its markers.
pub open spec fn padded_page(old: Seq<u8>, new: Seq<u8>) -> bool {
    &&& new.len() >= old.len() + 7
    &&& new.subrange(0, old.len() as int) == old
    &&& wrapped_filler(
        new.subrange(old.len() as int, new.len() as int),
        html_open(),
        html_close(),
        (new.len() - old.len()) as nat,
    )
}

/// Deterministic page padding of `old` to `new`: to the next multiple of
/// `obj_size` above its length plus the markers where that fits, else none.
pub open spec fn deterministic_padding(old: Seq<u8>, new: Seq<u8>, obj_size: usize) -> bool {
    if obj_size >= 1 && old.len() + 6 + obj_size <= usize::MAX {
        padded_page(old, new) && new.len() == next_multiple(obj_size as nat, (old.len() + 7) as nat)
    } else {
        new == old
    }
}

/// Pads a serialized page, the seven bytes of comment markers reserved:
/// to the next multiple of `obj_size` deterministically, or to a drawn size.
/// Returns whether it padded; where it did not (an inconsistent step, an
/// overflow, an exhausted draw), the page is unchanged.
pub fn pad_page<S: Sampler>(content: &mut Vec<u8>, strategy: &mut Strategy<S>) -> (r: bool)
    ensures
        !r ==> final(content)@ == old(content)@,
        r ==> padded_page(old(content)@, final(content)@),
        *old(strategy) matches Strategy::Deterministic { obj_size, .. } ==> deterministic_padding(
            old(content)@,
            final(content)@,
            obj_size,
        ) && *final(strategy) == *old(strategy),
{
    let len = content.len();
    if len > usize::MAX - 7 {
        return false;
    }
    let min = len + 7;
    let target = match strategy {
        Strategy::Deterministic { obj_size, .. } => {
            if *obj_size == 0 || min - 1 > usize::MAX - *obj_size {
                return false;
            }
            get_multiple(*obj_size, min)
        },
        Strategy::Probabilistic { html, .. } => {
            match sample_ge(html, min) {
                Ok(t) => t,
                Err(_) => {
                    return false;
                },
            }
        },
        Strategy::Unmorphed => {
            return false;
        },
    };
    get_html_padding(content, target);
    true
}

/// Runs the strategy on the real resources `objects`; returns whether it
/// succeeded. Where it fails the resources are unchanged; where it succeeds
/// the synthetic resources follow the real ones, each with a target size.
pub fn run_strategy<S: Sampler>(objects: &mut Vec<Object>, strategy: &mut Strategy<S>) -> (r: bool)
    ensures
        !r ==> final(objects)@ == old(objects)@,
        r ==> final(objects)@.len() >= old(objects)@.len(),
        r ==> forall|i: int|
            old(objects)@.len() <= i < final(objects)@.len() ==> (
            #[trigger] final(objects)@[i]).target_size is Some,
        *old(strategy) matches Strategy::Deterministic { obj_num, obj_size, max_obj_size } ==> (r
            <==> deterministic_ok(old(objects)@, obj_num, obj_size, max_obj_size)) && (r
            ==> deterministic_outcome(
            old(objects)@,
            final(objects)@,
            obj_num,
            obj_size,
            max_obj_size,
        )) && *final(strategy) == *old(strategy),
        *old(strategy) matches Strategy::Probabilistic { .. } ==> (r ==> exists|u: Seq<usize>|
            drawn_outcome(old(objects)@, final(objects)@, u)),
        *old(strategy) is Unmorphed ==> !r,
{
    let ghost before = objects@;
    match strategy {
        Strategy::Deterministic { obj_num, obj_size, max_obj_size } => {
            let ok = morph_deterministic(objects, *obj_num, *obj_size, *max_obj_size).is_ok();
            proof {
                if ok {
                    assert forall|i: int| before.len() <= i < objects@.len() implies (
                    #[trigger] objects@[i]).target_size is Some by {
                        assert(uniform_fake(objects@[i], *obj_size, *max_obj_size));
                        let s = choose|s: usize|
                            is_padding_object(objects@[i], s) && s % *obj_size == 0 && *obj_size
                                <= s <= *max_obj_size;
                    }
                }
            }
            ok
        },
        Strategy::Probabilistic { count, size, .. } => {
            match morph_from_distribution(objects, count, size) {
                Ok(unpadded) => {
                    proof {
                        let (sizes, order) = choose|sizes: Seq<usize>, order: Seq<usize>|
                            #![trigger matched_as(before, objects@, order, sizes, unpadded@)]
                            sizes.len() >= before.len() && (forall|i: int|
                                0 <= i < sizes.len() ==> #[trigger] sizes[i] >= 1) && (forall|
                                i: int,
                                j: int,
                            |
                                0 <= i <= j < sizes.len() ==> sizes[i] <= sizes[j])
                                && is_length_order(before, order) && matched_as(
                                before,
                                objects@,
                                order,
                                sizes,
                                unpadded@,
                            ) && sizes_cover_needs(before, objects@, order);
                        let n = before.len();
                        let g = greedy(needs_in(before, order), sizes, sizes.len());
                        assert forall|i: int| n <= i < objects@.len() implies (
                        #[trigger] objects@[i]).target_size is Some by {
                            assert(is_padding_object(objects@[n + (i - n)], g.1[i - n]));
                        }
                    }
                    true
                },
                Err(_) => false,
            }
        },
        Strategy::Unmorphed => false,
    }
}

/// The page served: the serialized page as it is where the strategy failed,
/// else padded by `pad_page`.
pub fn finish_page<S: Sampler>(serialized: Vec<u8>, morphed: bool, strategy: &mut Strategy<S>) -> (r: Vec<u8>)
    ensures
        !morphed ==> r@ == serialized@,
        morphed ==> r@ == serialized@ || padded_page(serialized@, r@),
        morphed ==> (*old(strategy) matches Strategy::Deterministic { obj_size, .. }
            ==> deterministic_padding(serialized@, r@, obj_size)),
{
    let mut content = serialized;
    if morphed {
        pad_page(&mut content, strategy);
    }
    content
}

/// Under the deterministic strategy with consistent bounds, a page served is
/// some serialization padded as `deterministic_padding` says.
pub open spec fn deterministic_page<S>(strategy: Strategy<S>, objs: Seq<Object>, r: Option<Vec<u8>>) -> bool {
    match strategy {
        Strategy::Deterministic { obj_num, obj_size, max_obj_size } => deterministic_ok(
            objs,
            obj_num,
            obj_size,
            max_obj_size,
        ) ==> match r {
            Some(c) => exists|k: Seq<u8>| #[trigger] deterministic_padding(k, c@, obj_size),
            None => true,
        },
        _ => true,
    }
}

/// Morphs a page whose resources have been found and loaded: `objects`
/// holds its real resources. Runs the strategy (`run_strategy`); where it
/// fails, the page is serialized as it is. Otherwise the references are
/// rewritten (`insert_objects_refs`), the page is serialized and padded
/// (`finish_page`). None only where serialization fails.
pub fn morph_page<S: Sampler>(document: &NodeRef, objects: Vec<Object>, strategy: &mut Strategy<
    S,
>) -> (r: Option<Vec<u8>>)
    ensures
        deterministic_page(*old(strategy), objects@, r),
{
    let ghost s0 = *strategy;
    let ghost objs0 = objects@;
    let n = objects.len();
    let mut objs = objects;
    let morphed = run_strategy(&mut objs, strategy);
    let ghost s1 = *strategy;
    if morphed {
        insert_objects_refs(document, &objs, n);
    }
    let serialized = match serialize_html(document) {
        Some(c) => c,
        None => {
            return None;
        },
    };
    let ghost k = serialized@;
    let content = finish_page(serialized, morphed, strategy);
    proof {
        match s0 {
            Strategy::Deterministic { obj_num, obj_size, max_obj_size } => {
                assert(s1 == s0);
                assert(deterministic_ok(objs0, obj_num, obj_size, max_obj_size) ==> morphed);
                if morphed {
                    assert(deterministic_padding(k, content@, obj_size));
                    let rc = Some(content);
                    assert(rc->Some_0@ == content@);
                    assert(deterministic_padding(k, rc->Some_0@, obj_size));
                    assert(deterministic_page(s0, objs0, rc));
                } else {
                    assert(!deterministic_ok(objs0, obj_num, obj_size, max_obj_size));
                    assert(deterministic_page(s0, objs0, Some(content)));
                }
            },
            _ => {},
        }
    }
    Some(content)
}

} // verus!
