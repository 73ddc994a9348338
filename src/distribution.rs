//! Distributions of sizes and counts: their textual descriptions, the
//! empirical tables that are sampled here by inverse CDF, and sampling with
//! a floor under a bounded retry budget.
use vstd::prelude::*;

use crate::deterministic::uniform_between;
use crate::error::{MorphError, ParseFault};
use crate::text::{
    all_digits, chars_of, decimal_value, first_index_from, is_digit, parse_usize, split_exec,
    split_on, string_of, usize_of, views, words, words_exec,
};

verus! {

/// Draws per sample: after this many draws below the floor, sampling fails.
pub const SAMPLE_LIMIT: usize = 30;

/// Probabilities are held in units of one billionth.
pub const PROB_SCALE: u64 = 1_000_000_000;

/// The parametric families a distribution may name.
#[derive(Clone, Copy, Debug, PartialEq, Eq, Structural)]
pub enum Family {
    Normal,
    LogNormal,
    Exponential,
    Poisson,
    Binomial,
    Gamma,
}

/// The number of parameters a family takes.
pub open spec fn arity(f: Family) -> nat {
    match f {
        Family::Exponential | Family::Poisson => 1,
        _ => 2,
    }
}

/// The family that a name denotes (`Exp` is accepted for `Exponential`).
pub open spec fn family_named(name: Seq<char>) -> Option<Family> {
    if name == seq!['N', 'o', 'r', 'm', 'a', 'l'] {
        Some(Family::Normal)
    } else if name == seq!['L', 'o', 'g', 'N', 'o', 'r', 'm', 'a', 'l'] {
        Some(Family::LogNormal)
    } else if name == seq!['E', 'x', 'p'] || name == seq![
        'E',
        'x',
        'p',
        'o',
        'n',
        'e',
        'n',
        't',
        'i',
        'a',
        'l',
    ] {
        Some(Family::Exponential)
    } else if name == seq!['P', 'o', 'i', 's', 's', 'o', 'n'] {
        Some(Family::Poisson)
    } else if name == seq!['B', 'i', 'n', 'o', 'm', 'i', 'a', 'l'] {
        Some(Family::Binomial)
    } else if name == seq!['G', 'a', 'm', 'm', 'a'] {
        Some(Family::Gamma)
    } else {
        None
    }
}

/// The first index at or after `i` that does not hold a digit.
pub open spec fn digits_end(s: Seq<char>, i: int) -> int
    decreases s.len() - i,
{
    if i >= s.len() {
        s.len() as int
    } else if is_digit(s[i]) {
        digits_end(s, i + 1)
    } else {
        i
    }
}

pub open spec fn is_sign(c: char) -> bool {
    c == '+' || c == '-'
}

/// Where the exponent part that may start at `c` ends, or -1 when it is
/// malformed.
pub open spec fn exponent_end(s: Seq<char>, c: int) -> int {
    if c < s.len() && (s[c] == 'e' || s[c] == 'E') {
        let e1 = if c + 1 < s.len() && is_sign(s[c + 1]) {
            c + 2
        } else {
            c + 1
        };
        let e2 = digits_end(s, e1);
        if e2 > e1 {
            e2
        } else {
            -1
        }
    } else {
        c
    }
}

/// A decimal real: an optional sign, digits with an optional point (at
/// least one digit in all), and an optional exponent.
pub open spec fn real_literal(s: Seq<char>) -> bool {
    let a: int = if s.len() > 0 && is_sign(s[0]) {
        1
    } else {
        0
    };
    let b = digits_end(s, a);
    let has_dot = b < s.len() && s[b] == '.';
    let c = if has_dot {
        digits_end(s, b + 1)
    } else {
        b
    };
    let n = (b - a) + (if has_dot {
        c - b - 1
    } else {
        0
    });
    n > 0 && exponent_end(s, c) == s.len()
}

/// The first `q` digits of `d`, padded with zeros on the right.
pub open spec fn padded_digits(d: Seq<char>, q: nat) -> Seq<char> {
    Seq::new(q, |k: int| if k < d.len() { d[k] } else { '0' })
}

/// The signed exponent written after `e`: an optional sign, then digits.
pub open spec fn exponent_value(s: Seq<char>) -> Option<int> {
    let body = if s.len() > 0 && is_sign(s[0]) {
        s.drop_first()
    } else {
        s
    };
    if body.len() > 0 && all_digits(body) {
        Some(
            if s[0] == '-' {
                -decimal_value(body)
            } else {
                decimal_value(body) as int
            },
        )
    } else {
        None
    }
}

/// Where the exponent marker (`e` or `E`) of `s` is, or its length.
pub open spec fn exponent_index(s: Seq<char>) -> int {
    let a = first_index_from(s, 'e', 0);
    let b = first_index_from(s, 'E', 0);
    if a < b {
        a
    } else {
        b
    }
}

/// A probability written `digits[.digits][e[sign]digits]` (at least one
/// digit before the exponent), in units of `PROB_SCALE`, truncated: the
/// digits with the point moved nine places, and by the exponent, to the
/// right.
pub open spec fn probability_units(s: Seq<char>) -> Option<u64> {
    let ei = exponent_index(s);
    let mant = s.subrange(0, ei);
    let dot = first_index_from(mant, '.', 0);
    let ip = mant.subrange(0, dot);
    let fp = if dot < mant.len() {
        mant.subrange(dot + 1, mant.len() as int)
    } else {
        Seq::empty()
    };
    let ex = if ei < s.len() {
        exponent_value(s.subrange(ei + 1, s.len() as int))
    } else {
        Some(0)
    };
    let q = ip.len() + 9 + ex->Some_0;
    let v = if q <= 0 {
        0
    } else {
        decimal_value(padded_digits(ip + fp, q as nat))
    };
    if all_digits(ip) && all_digits(fp) && ip.len() + fp.len() > 0 && ex is Some && v <= u64::MAX {
        Some(v as u64)
    } else {
        None
    }
}

proof fn lemma_zero_digits(s: Seq<char>)
    requires
        forall|i: int| 0 <= i < s.len() ==> s[i] == '0',
    ensures
        decimal_value(s) == 0,
    decreases s.len(),
{
    if s.len() > 0 {
        lemma_zero_digits(s.drop_last());
    }
}

proof fn lemma_leading_digit(s: Seq<char>, i: int)
    requires
        all_digits(s),
        0 <= i < s.len(),
        s[i] != '0',
    ensures
        decimal_value(s) >= crate::text::pow10((s.len() - 1 - i) as nat),
    decreases s.len(),
{
    let t = s.drop_last();
    assert(all_digits(t)) by {
        assert forall|j: int| 0 <= j < t.len() implies is_digit(#[trigger] t[j]) by {
            assert(t[j] == s[j]);
        }
    }
    assert(is_digit(s.last()));
    if i == s.len() - 1 {
        assert(crate::text::pow10(0) == 1);
    } else {
        lemma_leading_digit(t, i);
        assert(crate::text::pow10((s.len() - 1 - i) as nat) == 10 * crate::text::pow10(
            (t.len() - 1 - i) as nat,
        ));
    }
}

fn all_digits_exec(s: &[char]) -> (r: bool)
    ensures
        r == all_digits(s@),
{
    let mut i: usize = 0;
    while i < s.len()
        invariant
            i <= s@.len(),
            forall|j: int| 0 <= j < i ==> is_digit(s@[j]),
        decreases s@.len() - i,
    {
        if !('0' <= s[i] && s[i] <= '9') {
            return false;
        }
        i = i + 1;
    }
    true
}

/// The exponent after `e` as a sign and a magnitude capped at `2^100`.
fn parse_exponent(s: &[char]) -> (r: Option<(bool, u128)>)
    ensures
        r is Some <==> exponent_value(s@) is Some,
        r matches Some((neg, m)) ==> {
            let e = exponent_value(s@)->Some_0;
            &&& neg == (e < 0)
            &&& m <= EXP_CAP
            &&& (m < EXP_CAP ==> (if neg { -e } else { e }) == m as int)
            &&& (m == EXP_CAP ==> (if neg { -e } else { e }) >= EXP_CAP)
        },
{
    let start: usize = if s.len() > 0 && (s[0] == '+' || s[0] == '-') {
        1
    } else {
        0
    };
    let neg = s.len() > 0 && s[0] == '-';
    let ghost body = if s@.len() > 0 && is_sign(s@[0]) {
        s@.drop_first()
    } else {
        s@
    };
    assert(body == s@.subrange(start as int, s@.len() as int));
    if start == s.len() {
        return None;
    }
    let mut m: u128 = 0;
    let mut i: usize = start;
    while i < s.len()
        invariant
            start <= i <= s@.len(),
            start < s@.len(),
            body == s@.subrange(start as int, s@.len() as int),
            body == (if s@.len() > 0 && is_sign(s@[0]) {
                s@.drop_first()
            } else {
                s@
            }),
            all_digits(s@.subrange(start as int, i as int)),
            m <= EXP_CAP,
            m < EXP_CAP ==> m as int == decimal_value(s@.subrange(start as int, i as int)),
            m == EXP_CAP ==> decimal_value(s@.subrange(start as int, i as int)) >= EXP_CAP,
        decreases s@.len() - i,
    {
        let c = s[i];
        if !('0' <= c && c <= '9') {
            assert(body[i - start] == c);
            assert(!all_digits(body));
            return None;
        }
        let d: u128 = ((c as u32) - ('0' as u32)) as u128;
        let ghost next = s@.subrange(start as int, i + 1);
        assert(next.drop_last() == s@.subrange(start as int, i as int));
        assert(decimal_value(next) == decimal_value(s@.subrange(start as int, i as int)) * 10 + d);
        if m < EXP_CAP {
            if m * 10 + d >= EXP_CAP {
                m = EXP_CAP;
            } else {
                m = m * 10 + d;
            }
        } else {
            assert(decimal_value(next) >= EXP_CAP);
        }
        i = i + 1;
    }
    assert(s@.subrange(start as int, i as int) == body);
    Some((neg && m > 0, m))
}

pub proof fn lemma_digits_end(s: Seq<char>, i: int)
    requires
        0 <= i <= s.len(),
    ensures
        i <= digits_end(s, i) <= s.len(),
        forall|j: int| i <= j < digits_end(s, i) ==> is_digit(s[j]),
        digits_end(s, i) < s.len() ==> !is_digit(s[digits_end(s, i)]),
    decreases s.len() - i,
{
    if i < s.len() && is_digit(s[i]) {
        lemma_digits_end(s, i + 1);
    }
}

fn digits_end_exec(s: &[char], i: usize) -> (r: usize)
    requires
        i <= s@.len(),
    ensures
        r as int == digits_end(s@, i as int),
{
    let mut k: usize = i;
    while k < s.len() && '0' <= s[k] && s[k] <= '9'
        invariant
            i <= k <= s@.len(),
            digits_end(s@, i as int) == digits_end(s@, k as int),
        decreases s@.len() - k,
    {
        k = k + 1;
    }
    k
}

/// Whether `s` is a decimal real, as `real_literal` states.
pub fn is_real_literal(s: &[char]) -> (r: bool)
    ensures
        r == real_literal(s@),
{
    let a: usize = if s.len() > 0 && (s[0] == '+' || s[0] == '-') {
        1
    } else {
        0
    };
    let b = digits_end_exec(s, a);
    proof {
        lemma_digits_end(s@, a as int);
    }
    let has_dot = b < s.len() && s[b] == '.';
    let c = if has_dot {
        digits_end_exec(s, b + 1)
    } else {
        b
    };
    proof {
        if has_dot {
            lemma_digits_end(s@, b + 1);
        }
    }
    let n: usize = (b - a) + (if has_dot {
        c - b - 1
    } else {
        0
    });
    if n == 0 {
        return false;
    }
    if c < s.len() && (s[c] == 'e' || s[c] == 'E') {
        let e1: usize = if c + 1 < s.len() && (s[c + 1] == '+' || s[c + 1] == '-') {
            c + 2
        } else {
            c + 1
        };
        let e2 = digits_end_exec(s, e1);
        e2 > e1 && e2 == s.len()
    } else {
        c == s.len()
    }
}

/// The cap on exponent magnitudes: beyond it, any probability with a
/// non-zero digit overflows or truncates to zero.
pub const EXP_CAP: u128 = 0x10_0000_0000_0000_0000_0000_0000;

/// Parses a probability, as `probability_units` states.
#[verifier::rlimit(40)]
pub fn parse_probability(s: &[char]) -> (r: Option<u64>)
    ensures
        r == probability_units(s@),
{
    let ea = first_index_exec(s, 'e');
    let eb = first_index_exec(s, 'E');
    let ei = if ea < eb {
        ea
    } else {
        eb
    };
    let mant = crate::text::copy_range(s, 0, ei);
    let dot = first_index_exec(&mant, '.');
    let ip = crate::text::copy_range(&mant, 0, dot);
    let fp = if dot < mant.len() {
        crate::text::copy_range(&mant, dot + 1, mant.len())
    } else {
        Vec::new()
    };
    let ghost fps = if dot < mant@.len() {
        mant@.subrange(dot + 1, mant@.len() as int)
    } else {
        Seq::<char>::empty()
    };
    assert(fp@ == fps);
    if !all_digits_exec(&ip) || !all_digits_exec(&fp) || ip.len() + fp.len() == 0 {
        return None;
    }
    let ex = if ei < s.len() {
        let tail = crate::text::copy_range(s, ei + 1, s.len());
        parse_exponent(&tail)
    } else {
        assert(exponent_value(Seq::<char>::empty()) is None);
        Some((false, 0u128))
    };
    let ghost exv = if ei < s@.len() {
        exponent_value(s@.subrange(ei + 1, s@.len() as int))
    } else {
        Some(0int)
    };
    let (neg, mag) = match ex {
        Some(p) => p,
        None => {
            return None;
        },
    };
    let ghost e = exv->Some_0;
    let mut digits = ip.clone();
    let mut f2 = fp.clone();
    assert(digits@ == ip@);
    assert(f2@ == fp@);
    digits.append(&mut f2);
    let ghost d = digits@;
    let ghost q = ip@.len() + 9 + e;
    // the first non-zero digit
    let mut f0: usize = 0;
    while f0 < digits.len() && digits[f0] == '0'
        invariant
            f0 <= digits@.len(),
            forall|j: int| 0 <= j < f0 ==> digits@[j] == '0',
        decreases digits@.len() - f0,
    {
        f0 = f0 + 1;
    }
    assert(all_digits(d)) by {
        assert forall|j: int| 0 <= j < d.len() implies is_digit(#[trigger] d[j]) by {
            if j < ip@.len() {
                assert(d[j] == ip@[j]);
            } else {
                assert(d[j] == fp@[j - ip@.len()]);
            }
        }
    }
    if f0 == digits.len() {
        proof {
            if q > 0 {
                lemma_zero_digits(padded_digits(d, q as nat));
            }
        }
        return Some(0);
    }
    let il: i128 = ip.len() as i128;
    if mag == EXP_CAP {
        if neg {
            assert(q <= 0);
            return Some(0);
        } else {
            proof {
                overflow_beyond(d, f0 as int, q);
            }
            return None;
        }
    }
    let qe: i128 = if neg {
        il + 9 - (mag as i128)
    } else {
        il + 9 + (mag as i128)
    };
    assert(qe as int == q);
    if qe <= 0 {
        return Some(0);
    }
    if qe >= f0 as i128 + 21 {
        proof {
            overflow_beyond(d, f0 as int, q);
        }
        return None;
    }
    digits_value(&digits, qe as u128)
}

/// The value of the first `q` digits of `digits`, padded with zeros; none
/// where it does not fit a `u64`.
fn digits_value(digits: &Vec<char>, qn: u128) -> (r: Option<u64>)
    requires
        all_digits(digits@),
    ensures
        decimal_value(padded_digits(digits@, qn as nat)) <= u64::MAX ==> r == Some(
            decimal_value(padded_digits(digits@, qn as nat)) as u64,
        ),
        decimal_value(padded_digits(digits@, qn as nat)) > u64::MAX ==> r is None,
{
    let ghost d = digits@;
    let ghost pd = padded_digits(d, qn as nat);
    assert(all_digits(pd)) by {
        assert forall|j: int| 0 <= j < pd.len() implies is_digit(#[trigger] pd[j]) by {
            if j < d.len() {
                assert(is_digit(d[j]));
            }
        }
    }
    let mut acc: u64 = 0;
    let mut k: u128 = 0;
    while k < qn
        invariant
            k <= qn,
            pd == padded_digits(d, qn as nat),
            d == digits@,
            all_digits(pd),
            acc as nat == decimal_value(pd.subrange(0, k as int)),
        decreases qn - k,
    {
        let c = if k < digits.len() as u128 {
            digits[k as usize]
        } else {
            '0'
        };
        assert(c == pd[k as int]);
        assert(is_digit(c));
        let dg: u64 = ((c as u32) - ('0' as u32)) as u64;
        let ghost next = pd.subrange(0, k + 1);
        assert(next.drop_last() == pd.subrange(0, k as int));
        assert(decimal_value(next) == acc * 10 + dg);
        if acc > (u64::MAX - dg) / 10 {
            proof {
                assert(acc * 10 + dg > u64::MAX) by (nonlinear_arith)
                    requires acc > (u64::MAX - dg) / 10, dg <= 9;
                crate::text::lemma_decimal_prefix_le(pd, k + 1);
            }
            return None;
        }
        proof {
            assert(acc * 10 + dg <= u64::MAX) by (nonlinear_arith)
                requires acc <= (u64::MAX - dg) / 10, dg <= 9;
        }
        acc = acc * 10 + dg;
        k = k + 1;
    }
    assert(pd.subrange(0, k as int) == pd);
    Some(acc)
}

/// With a non-zero digit at `f0`, taking `q >= f0 + 21` digits overflows.
proof fn overflow_beyond(d: Seq<char>, f0: int, q: int)
    requires
        all_digits(d),
        0 <= f0 < d.len(),
        d[f0] != '0',
        q >= f0 + 21,
    ensures
        decimal_value(padded_digits(d, q as nat)) > u64::MAX,
{
    let pd = padded_digits(d, q as nat);
    assert(all_digits(pd)) by {
        assert forall|j: int| 0 <= j < pd.len() implies is_digit(#[trigger] pd[j]) by {
            if j < d.len() {
                assert(is_digit(d[j]));
            }
        }
    }
    lemma_leading_digit(pd, f0);
    crate::text::lemma_pow10_mono(20, (q - 1 - f0) as nat);
    reveal_with_fuel(crate::text::pow10, 21);
    assert(crate::text::pow10(20) == 100_000_000_000_000_000_000);
}

/// The first index of `c` in `s`, or its length.
fn first_index_exec(s: &[char], c: char) -> (r: usize)
    ensures
        r as int == first_index_from(s@, c, 0),
        r <= s@.len(),
{
    proof {
        crate::text::lemma_first_index_bounds(s@, c, 0);
    }
    crate::parsing::first_index_exec(s, c, 0)
}

/// Whether two character strings are equal.
pub fn same_chars(a: &[char], b: &[char]) -> (r: bool)
    ensures
        r == (a@ == b@),
{
    if a.len() != b.len() {
        return false;
    }
    let mut i: usize = 0;
    while i < a.len()
        invariant
            i <= a@.len() == b@.len(),
            a@.subrange(0, i as int) == b@.subrange(0, i as int),
        decreases a@.len() - i,
    {
        if a[i] != b[i] {
            return false;
        }
        assert(a@.subrange(0, i + 1) =~= a@.subrange(0, i as int).push(a@[i as int]));
        assert(b@.subrange(0, i + 1) =~= b@.subrange(0, i as int).push(b@[i as int]));
        i = i + 1;
    }
    assert(a@.subrange(0, i as int) =~= a@);
    assert(b@.subrange(0, i as int) =~= b@);
    true
}

/// The family that a name denotes, as `family_named` states.
pub fn family_of(name: &[char]) -> (r: Option<Family>)
    ensures
        r == family_named(name@),
{
    let normal: Vec<char> = vec!['N', 'o', 'r', 'm', 'a', 'l'];
    let log_normal: Vec<char> = vec!['L', 'o', 'g', 'N', 'o', 'r', 'm', 'a', 'l'];
    let exp: Vec<char> = vec!['E', 'x', 'p'];
    let exponential: Vec<char> = vec!['E', 'x', 'p', 'o', 'n', 'e', 'n', 't', 'i', 'a', 'l'];
    let poisson: Vec<char> = vec!['P', 'o', 'i', 's', 's', 'o', 'n'];
    let binomial: Vec<char> = vec!['B', 'i', 'n', 'o', 'm', 'i', 'a', 'l'];
    let gamma: Vec<char> = vec!['G', 'a', 'm', 'm', 'a'];
    assert(normal@ =~= seq!['N', 'o', 'r', 'm', 'a', 'l']);
    assert(log_normal@ =~= seq!['L', 'o', 'g', 'N', 'o', 'r', 'm', 'a', 'l']);
    assert(exp@ =~= seq!['E', 'x', 'p']);
    assert(exponential@ =~= seq!['E', 'x', 'p', 'o', 'n', 'e', 'n', 't', 'i', 'a', 'l']);
    assert(poisson@ =~= seq!['P', 'o', 'i', 's', 's', 'o', 'n']);
    assert(binomial@ =~= seq!['B', 'i', 'n', 'o', 'm', 'i', 'a', 'l']);
    assert(gamma@ =~= seq!['G', 'a', 'm', 'm', 'a']);
    if same_chars(name, &normal) {
        Some(Family::Normal)
    } else if same_chars(name, &log_normal) {
        Some(Family::LogNormal)
    } else if same_chars(name, &exp) || same_chars(name, &exponential) {
        Some(Family::Exponential)
    } else if same_chars(name, &poisson) {
        Some(Family::Poisson)
    } else if same_chars(name, &binomial) {
        Some(Family::Binomial)
    } else if same_chars(name, &gamma) {
        Some(Family::Gamma)
    } else {
        None
    }
}

/// The sum of the first `k` probabilities.
pub open spec fn prefix_sum(p: Seq<u64>, k: int) -> nat
    decreases k,
{
    if k <= 0 || k > p.len() {
        0
    } else {
        prefix_sum(p, k - 1) + p[k - 1] as nat
    }
}

/// The first index at or after `i` whose cumulative probability reaches `u`,
/// or the length.
pub open spec fn first_reaching(p: Seq<u64>, u: nat, i: int) -> int
    decreases p.len() - i,
{
    if i >= p.len() {
        p.len() as int
    } else if prefix_sum(p, i + 1) >= u {
        i
    } else {
        first_reaching(p, u, i + 1)
    }
}

/// Inverse-CDF selection: the first value whose cumulative probability
/// reaches `u`, else the last value.
pub open spec fn table_pick(values: Seq<usize>, probs: Seq<u64>, u: nat) -> usize {
    let i = first_reaching(probs, u, 0);
    if 0 <= i < values.len() {
        values[i]
    } else {
        values.last()
    }
}

/// Picks the value that `u` (in units of `PROB_SCALE`) selects from the
/// table, as `table_pick` states.
pub fn pick_custom(values: &[usize], probs: &[u64], u: u64) -> (r: usize)
    requires
        values@.len() == probs@.len(),
        values@.len() > 0,
    ensures
        r == table_pick(values@, probs@, u as nat),
{
    let mut sum: u128 = 0;
    let mut i: usize = 0;
    while i < probs.len()
        invariant
            i <= probs@.len() == values@.len(),
            values@.len() > 0,
            sum as nat == prefix_sum(probs@, i as int),
            sum <= i * 0xffff_ffff_ffff_ffffu128,
            first_reaching(probs@, u as nat, 0) == first_reaching(probs@, u as nat, i as int),
        decreases probs@.len() - i,
    {
        proof {
            assert((i + 1) * 0xffff_ffff_ffff_ffffu128 <= 0xffff_ffff_ffff_ffff_ffff_ffff_ffff_ffffu128)
                by (nonlinear_arith)
                requires i < 0x1_0000_0000_0000_0000u128;
        }
        sum = sum + probs[i] as u128;
        if sum >= u as u128 {
            return values[i];
        }
        i = i + 1;
    }
    values[values.len() - 1]
}

/// An empirical distribution: values with their probabilities, in order.
pub struct Table {
    values: Vec<usize>,
    probs: Vec<u64>,
}

impl Table {
    #[verifier::type_invariant]
    spec fn well_formed(self) -> bool {
        self.values@.len() == self.probs@.len() && self.values@.len() > 0
    }

    pub closed spec fn values(&self) -> Seq<usize> {
        self.values@
    }

    pub closed spec fn probs(&self) -> Seq<u64> {
        self.probs@
    }

    /// A table of the given values and probabilities.
    pub fn new(values: Vec<usize>, probs: Vec<u64>) -> (r: Option<Table>)
        ensures
            r is Some <==> (values@.len() == probs@.len() && values@.len() > 0),
            r matches Some(t) ==> t.values() == values@ && t.probs() == probs@,
    {
        if values.len() == probs.len() && values.len() > 0 {
            Some(Table { values, probs })
        } else {
            None
        }
    }

    /// The value that `u`, in units of `PROB_SCALE`, selects.
    pub fn pick(&self, u: u64) -> (r: usize)
        ensures
            r == table_pick(self.values(), self.probs(), u as nat),
    {
        proof {
            use_type_invariant(self);
        }
        pick_custom(self.values.as_slice(), self.probs.as_slice(), u)
    }
}

/// A source of draws from a distribution.
pub trait Sampler {
    /// One draw.
    fn draw(&mut self) -> usize;

    /// The distribution's name, for reports.
    fn name(&self) -> String;
}

impl Sampler for Table {
    /// A uniform `u` in `(0, 1]`, at the table's resolution, mapped through
    /// the inverse CDF.
    fn draw(&mut self) -> usize {
        let u = uniform_between(1, 1_000_000_000);
        self.pick(u as u64)
    }

    fn name(&self) -> String {
        String::from_str("custom")
    }
}

/// The retry rule of sampling with a floor: each draw is offered in turn;
/// one at or above the floor is accepted, and the budget ends with the
/// `SAMPLE_LIMIT`-th draw below it.
pub struct Rejection {
    pub floor: usize,
    pub attempts: usize,
}

/// The decision on one offered draw.
#[derive(Debug, Clone, Copy, PartialEq, Eq, Structural)]
pub enum Verdict {
    Accept(usize),
    Retry,
    Exhausted,
}

impl Rejection {
    pub fn new(floor: usize) -> (r: Rejection)
        ensures
            r.floor == floor,
            r.attempts == 0,
    {
        Rejection { floor, attempts: 0 }
    }

    /// Decides on one draw.
    pub fn offer(&mut self, drawn: usize) -> (v: Verdict)
        requires
            old(self).attempts < SAMPLE_LIMIT,
        ensures
            final(self).floor == old(self).floor,
            final(self).attempts == old(self).attempts + 1,
            drawn >= old(self).floor ==> v == Verdict::Accept(drawn),
            drawn < old(self).floor && final(self).attempts < SAMPLE_LIMIT ==> v == Verdict::Retry,
            drawn < old(self).floor && final(self).attempts == SAMPLE_LIMIT ==> v
                == Verdict::Exhausted,
    {
        self.attempts = self.attempts + 1;
        if drawn >= self.floor {
            Verdict::Accept(drawn)
        } else if self.attempts < SAMPLE_LIMIT {
            Verdict::Retry
        } else {
            Verdict::Exhausted
        }
    }
}

/// Draws until a value reaches `lower_bound`, at most `SAMPLE_LIMIT` times.
pub fn sample_ge<S: Sampler>(dist: &mut S, lower_bound: usize) -> (r: Result<usize, MorphError>)
    ensures
        r matches Ok(v) ==> v >= lower_bound,
        r matches Err(e) ==> e is SamplingExhausted,
        lower_bound == 0 ==> r is Ok,
{
    let mut rule = Rejection::new(lower_bound);
    while rule.attempts < SAMPLE_LIMIT
        invariant
            rule.floor == lower_bound,
            rule.attempts <= SAMPLE_LIMIT,
            lower_bound == 0 ==> rule.attempts == 0,
        decreases SAMPLE_LIMIT - rule.attempts,
    {
        let v = dist.draw();
        match rule.offer(v) {
            Verdict::Accept(x) => {
                return Ok(x);
            },
            Verdict::Retry => {},
            Verdict::Exhausted => {
                return Err(MorphError::SamplingExhausted(dist.name()));
            },
        }
    }
    Err(MorphError::SamplingExhausted(dist.name()))
}

/// `samples` independent draws, each at least `lower_bound`; the first
/// exhausted draw fails the whole, and no draw follows it.
pub fn sample_ge_many<S: Sampler>(dist: &mut S, lower_bound: usize, samples: usize) -> (r: Result<
    Vec<usize>,
    MorphError,
>)
    ensures
        r matches Ok(v) ==> v@.len() == samples && forall|i: int|
            0 <= i < samples ==> #[trigger] v@[i] >= lower_bound,
        r matches Err(e) ==> e is SamplingExhausted,
        samples == 0 ==> (r matches Ok(v) && v@.len() == 0),
        lower_bound == 0 ==> r is Ok,
{
    let mut out: Vec<usize> = Vec::new();
    let mut k: usize = 0;
    while k < samples
        invariant
            k <= samples,
            out@.len() == k,
            forall|i: int| 0 <= i < k ==> #[trigger] out@[i] >= lower_bound,
        decreases samples - k,
    {
        let v = match sample_ge(dist, lower_bound) {
            Ok(v) => v,
            Err(e) => {
                return Err(e);
            },
        };
        out.push(v);
        k = k + 1;
    }
    Ok(out)
}

/// What a distribution is made of.
pub enum Shape {
    /// A named family with its parameters, as written.
    Parametric { family: Family, params: Vec<String> },
    /// An empirical table.
    Custom(Table),
}

/// A distribution, with the name it was given.
pub struct Dist {
    pub name: String,
    pub shape: Shape,
}

pub open spec fn str_views(v: Seq<String>) -> Seq<Seq<char>> {
    v.map_values(|x: String| x@)
}

/// What `Name/p1,p2,...` describes: its family and parameters, or why it
/// is refused.
pub open spec fn given_dist_outcome(s: Seq<char>) -> Result<(Family, Seq<Seq<char>>), ParseFault> {
    let pieces = split_on(s, '/');
    if pieces.len() != 2 {
        Err(ParseFault::Shape)
    } else {
        match family_named(pieces[0]) {
            None => Err(ParseFault::UnknownName),
            Some(f) => {
                let ps = split_on(pieces[1], ',');
                if ps.len() != arity(f) {
                    Err(ParseFault::Arity)
                } else if !(forall|i: int| 0 <= i < ps.len() ==> real_literal(#[trigger] ps[i])) {
                    Err(ParseFault::Token)
                } else {
                    Ok((f, ps))
                }
            },
        }
    }
}

/// What a value/probability table holds: its values and probabilities,
/// or why it is refused.
pub open spec fn table_outcome(s: Seq<char>) -> Result<(Seq<usize>, Seq<u64>), ParseFault> {
    let t = words(s);
    let n = t.len() / 2;
    if t.len() == 0 || t.len() % 2 == 1 {
        Err(ParseFault::Table)
    } else if exists|k: int|
        0 <= k < n && (usize_of(#[trigger] t[2 * k]) is None || probability_units(t[2 * k + 1]) is None) {
        Err(ParseFault::Token)
    } else {
        Ok(
            (
                Seq::new(n, |k: int| usize_of(t[2 * k])->Some_0),
                Seq::new(n, |k: int| probability_units(t[2 * k + 1])->Some_0),
            ),
        )
    }
}

/// Parses a `Name/p1,p2,...` description, as `given_dist_outcome` states.
pub fn parse_given_dist(dist: &str) -> (r: Result<Dist, MorphError>)
    ensures
        match given_dist_outcome(dist@) {
            Ok((f, ps)) => r matches Ok(d) && d.name@ == split_on(dist@, '/')[0] && (
            d.shape matches Shape::Parametric { family, params } && family == f && str_views(
                params@,
            ) == ps),
            Err(e) => r == Err::<Dist, MorphError>(MorphError::Parse(e)),
        },
{
    let text = chars_of(dist);
    let pieces = split_exec(&text, '/');
    if pieces.len() != 2 {
        return Err(MorphError::Parse(ParseFault::Shape));
    }
    assert(pieces@[0]@ == split_on(dist@, '/')[0]);
    assert(pieces@[1]@ == split_on(dist@, '/')[1]);
    let family = match family_of(&pieces[0]) {
        Some(f) => f,
        None => {
            return Err(MorphError::Parse(ParseFault::UnknownName));
        },
    };
    let ps = split_exec(&pieces[1], ',');
    let needed: usize = match family {
        Family::Exponential | Family::Poisson => 1,
        _ => 2,
    };
    if ps.len() != needed {
        return Err(MorphError::Parse(ParseFault::Arity));
    }
    let ghost psv = split_on(pieces@[1]@, ',');
    let mut params: Vec<String> = Vec::new();
    let mut i: usize = 0;
    while i < ps.len()
        invariant
            i <= ps@.len(),
            views(ps@) == psv,
            psv == split_on(split_on(dist@, '/')[1], ','),
            split_on(dist@, '/').len() == 2,
            family_named(split_on(dist@, '/')[0]) == Some(family),
            psv.len() == arity(family),
            params@.len() == i,
            forall|j: int| 0 <= j < i ==> real_literal(#[trigger] psv[j]),
            str_views(params@) == psv.subrange(0, i as int),
        decreases ps@.len() - i,
    {
        assert(ps@[i as int]@ == psv[i as int]);
        if !is_real_literal(&ps[i]) {
            return Err(MorphError::Parse(ParseFault::Token));
        }
        let p = string_of(&ps[i]);
        let ghost before = params@;
        params.push(p);
        assert(str_views(params@) =~= str_views(before).push(p@));
        assert(psv.subrange(0, i + 1) =~= psv.subrange(0, i as int).push(psv[i as int]));
        i = i + 1;
    }
    assert(psv.subrange(0, i as int) =~= psv);
    Ok(Dist { name: string_of(&pieces[0]), shape: Shape::Parametric { family, params } })
}

/// Parses the text of a value/probability table, as `table_outcome` states;
/// the distribution is named `custom`.
pub fn parse_dist_table(text: &str) -> (r: Result<Dist, MorphError>)
    ensures
        match table_outcome(text@) {
            Ok((vs, ps)) => r matches Ok(d) && d.name@ == "custom"@ && (d.shape matches Shape::Custom(
                t,
            ) && t.values() == vs && t.probs() == ps),
            Err(e) => r == Err::<Dist, MorphError>(MorphError::Parse(e)),
        },
{
    let chars = chars_of(text);
    let toks = words_exec(&chars);
    let ghost t = words(text@);
    assert(views(toks@) == t);
    if toks.len() == 0 || toks.len() % 2 == 1 {
        return Err(MorphError::Parse(ParseFault::Table));
    }
    let n: usize = toks.len() / 2;
    let mut values: Vec<usize> = Vec::new();
    let mut probs: Vec<u64> = Vec::new();
    let mut k: usize = 0;
    while k < n
        invariant
            n == t.len() / 2,
            t.len() % 2 == 0,
            t == words(text@),
            toks@.len() == t.len(),
            views(toks@) == t,
            k <= n,
            values@.len() == k,
            probs@.len() == k,
            forall|j: int| 0 <= j < k ==> usize_of(t[2 * j]) == Some(#[trigger] values@[j]),
            forall|j: int|
                0 <= j < k ==> probability_units(t[2 * j + 1]) == Some(#[trigger] probs@[j]),
        decreases n - k,
    {
        let tv = &toks[2 * k];
        let tp = &toks[2 * k + 1];
        assert(tv@ == t[2 * k]);
        assert(tp@ == t[2 * k + 1]);
        let v = parse_usize(tv.as_slice(), 0, tv.len());
        assert(tv@.subrange(0, tv@.len() as int) =~= tv@);
        let p = parse_probability(tp.as_slice());
        match (v, p) {
            (Some(v), Some(p)) => {
                values.push(v);
                probs.push(p);
            },
            _ => {
                let ghost j = k as int;
                assert(usize_of(t[2 * j]) is None || probability_units(t[2 * j + 1]) is None);
                return Err(MorphError::Parse(ParseFault::Token));
            },
        }
        k = k + 1;
    }
    let ghost vs = Seq::new(n as nat, |j: int| usize_of(t[2 * j])->Some_0);
    let ghost pv = Seq::new(n as nat, |j: int| probability_units(t[2 * j + 1])->Some_0);
    assert(values@ =~= vs);
    assert(probs@ =~= pv);
    assert(!exists|j: int|
        0 <= j < n && (usize_of(#[trigger] t[2 * j]) is None || probability_units(t[2 * j + 1])
            is None)) by {
        assert forall|j: int| 0 <= j < n implies !(usize_of(#[trigger] t[2 * j]) is None
            || probability_units(t[2 * j + 1]) is None) by {
            assert(usize_of(t[2 * j]) == Some(values@[j]));
            assert(probability_units(t[2 * j + 1]) == Some(probs@[j]));
        }
    }
    match Table::new(values, probs) {
        Some(table) => Ok(Dist { name: String::from_str("custom"), shape: Shape::Custom(table) }),
        None => Err(MorphError::Parse(ParseFault::Table)),
    }
}

/// Whether `d` is what the description `s` describes: a family with its
/// parameters where `s` holds a `/`, else a value/probability table.
pub open spec fn describes(d: Dist, s: Seq<char>) -> bool {
    if first_index_from(s, '/', 0) < s.len() {
        match given_dist_outcome(s) {
            Ok((f, ps)) => d.name@ == split_on(s, '/')[0] && (d.shape matches Shape::Parametric {
                family,
                params,
            } && family == f && str_views(params@) == ps),
            Err(_) => false,
        }
    } else {
        match table_outcome(s) {
            Ok((vs, ps)) => d.name@ == "custom"@ && (d.shape matches Shape::Custom(t) && t.values()
                == vs && t.probs() == ps),
            Err(_) => false,
        }
    }
}

/// Why a description is refused (meaningful where it is).
pub open spec fn parse_fault(s: Seq<char>) -> ParseFault {
    if first_index_from(s, '/', 0) < s.len() {
        match given_dist_outcome(s) {
            Err(e) => e,
            Ok(_) => ParseFault::Shape,
        }
    } else {
        match table_outcome(s) {
            Err(e) => e,
            Ok(_) => ParseFault::Table,
        }
    }
}

/// Parses a description that is either `Name/p1,p2,...` (it holds a `/`)
/// or the text of a value/probability table.
pub fn parse_dist(desc: &str) -> (r: Result<Dist, MorphError>)
    ensures
        r is Ok <==> parse_ok(desc@),
        r matches Ok(d) ==> describes(d, desc@),
        r is Err ==> r == Err::<Dist, MorphError>(MorphError::Parse(parse_fault(desc@))),
{
    let text = chars_of(desc);
    proof {
        crate::text::lemma_first_index_bounds(desc@, '/', 0);
    }
    if first_index_exec(&text, '/') < text.len() {
        parse_given_dist(desc)
    } else {
        parse_dist_table(desc)
    }
}

/// The first refusal among three descriptions, in order.
pub open spec fn first_fault(a: Seq<char>, b: Seq<char>, c: Seq<char>) -> ParseFault {
    if !parse_ok(a) {
        parse_fault(a)
    } else if !parse_ok(b) {
        parse_fault(b)
    } else {
        parse_fault(c)
    }
}

/// The three distributions of the probabilistic strategy.
pub struct Distributions {
    /// Page size.
    pub html: Dist,
    /// Number of resources.
    pub obj_num: Dist,
    /// Resource size.
    pub obj_size: Dist,
}

impl Distributions {
    /// Parses the three descriptions; the first refusal, in this order, is
    /// the result.
    pub fn from(dist_html: &str, dist_obj_num: &str, dist_obj_size: &str) -> (r: Result<
        Distributions,
        MorphError,
    >)
        ensures
            r is Ok <==> parse_ok(dist_html@) && parse_ok(dist_obj_num@) && parse_ok(
                dist_obj_size@,
            ),
            r matches Ok(ds) ==> describes(ds.html, dist_html@) && describes(
                ds.obj_num,
                dist_obj_num@,
            ) && describes(ds.obj_size, dist_obj_size@),
            r is Err ==> r == Err::<Distributions, MorphError>(
                MorphError::Parse(first_fault(dist_html@, dist_obj_num@, dist_obj_size@)),
            ),
    {
        let html = match parse_dist(dist_html) {
            Ok(d) => d,
            Err(e) => {
                return Err(e);
            },
        };
        let obj_num = match parse_dist(dist_obj_num) {
            Ok(d) => d,
            Err(e) => {
                return Err(e);
            },
        };
        let obj_size = match parse_dist(dist_obj_size) {
            Ok(d) => d,
            Err(e) => {
                return Err(e);
            },
        };
        Ok(Distributions { html, obj_num, obj_size })
    }
}

/// Whether a description is accepted.
pub open spec fn parse_ok(s: Seq<char>) -> bool {
    if first_index_from(s, '/', 0) < s.len() {
        given_dist_outcome(s) is Ok
    } else {
        table_outcome(s) is Ok
    }
}

} // verus!
