//! Size arithmetic of the deterministic strategy: rounding up to a multiple
//! of a step, and uniform multiples of a step below a ceiling.
use rand::distributions::Distribution;
use vstd::prelude::*;

use crate::error::MorphError;

verus! {

/// Relies on rand's `Uniform::from(low..=high)` sampled with `thread_rng`:
/// a value in the closed range; `Uniform::new_inclusive` panics when `low > high`.
#[verifier::external_body]
pub(crate) fn uniform_between(low: usize, high: usize) -> (r: usize)
    requires
        low <= high,
    ensures
        low <= r <= high,
{
    rand::distributions::Uniform::from(low..=high).sample(&mut rand::thread_rng())
}

/// The smallest positive multiple of `step` that is at least `floor`.
pub open spec fn next_multiple(step: nat, floor: nat) -> nat {
    if floor <= step {
        step
    } else {
        (((floor - 1) as nat) / step + 1) * step
    }
}

/// Whether the smallest positive multiple of `step` at least `floor` fits a
/// `usize`.
pub open spec fn multiple_fits(step: nat, floor: nat) -> bool {
    floor == 0 || floor - 1 + step <= usize::MAX
}

/// The smallest positive multiple of `num` that is at least `min`.
pub fn get_multiple(num: usize, min: usize) -> (r: usize)
    requires
        num >= 1,
        multiple_fits(num as nat, min as nat),
    ensures
        r % num == 0,
        r >= min,
        r >= num,
        r == num || r < min + num,
        min > 0 ==> r < min + num,
        r == next_multiple(num as nat, min as nat),
{
    if min <= num {
        num
    } else {
        let q: usize = (min - 1) / num;
        proof {
            assert(q * num <= min - 1) by (nonlinear_arith)
                requires q == (min - 1) as int / num as int, num >= 1, min >= 1;
            assert(min - 1 < q * num + num) by (nonlinear_arith)
                requires q == (min - 1) as int / num as int, num >= 1, min >= 1;
            assert((q + 1) * num == q * num + num) by (nonlinear_arith);
            assert(((q + 1) * num) as int % num as int == 0) by (nonlinear_arith)
                requires num >= 1;
        }
        (q + 1) * num
    }
}

/// `n` independent uniform multiples of `obj_size` in `[obj_size, max_obj_size]`.
/// Fails with `InvalidRange` when the step is zero, exceeds the ceiling, or
/// does not divide it.
pub fn get_multiples_in_range(obj_size: usize, max_obj_size: usize, n: usize) -> (r: Result<
    Vec<usize>,
    MorphError,
>)
    ensures
        r is Err <==> (obj_size == 0 || obj_size > max_obj_size || max_obj_size % obj_size != 0),
        r is Err ==> r == Err::<Vec<usize>, MorphError>(MorphError::InvalidRange),
        r matches Ok(v) ==> v@.len() == n && forall|i: int|
            0 <= i < n ==> #[trigger] v@[i] % obj_size == 0 && obj_size <= v@[i] <= max_obj_size,
{
    if obj_size == 0 || obj_size > max_obj_size || max_obj_size % obj_size != 0 {
        return Err(MorphError::InvalidRange);
    }
    let mut sizes: Vec<usize> = Vec::with_capacity(n);
    let steps: usize = max_obj_size / obj_size;
    proof {
        assert(steps * obj_size <= max_obj_size) by (nonlinear_arith)
            requires steps == max_obj_size / obj_size, obj_size >= 1;
        assert(steps >= 1) by (nonlinear_arith)
            requires steps == max_obj_size / obj_size, obj_size <= max_obj_size, obj_size >= 1;
    }
    let mut k: usize = 0;
    while k < n
        invariant
            k <= n,
            obj_size >= 1,
            steps >= 1,
            steps * obj_size <= max_obj_size,
            sizes@.len() == k,
            forall|i: int|
                0 <= i < k ==> #[trigger] sizes@[i] % obj_size == 0 && obj_size <= sizes@[i]
                    <= max_obj_size,
        decreases n - k,
    {
        let m: usize = uniform_between(1, steps);
        proof {
            assert(m * obj_size <= steps * obj_size) by (nonlinear_arith)
                requires m <= steps, obj_size >= 1;
            assert(obj_size <= m * obj_size) by (nonlinear_arith)
                requires m >= 1, obj_size >= 1;
            assert((m * obj_size) as int % obj_size as int == 0) by (nonlinear_arith)
                requires obj_size >= 1;
        }
        sizes.push(m * obj_size);
        k = k + 1;
    }
    Ok(sizes)
}

} // verus!
