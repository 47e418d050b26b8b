//! Digit decomposition in arbitrary bases, digit recomposition, palindrome
//! tests, and the nine-pandigital test.

use vstd::prelude::*;

verus! {

use vstd::arithmetic::div_mod::lemma_div_is_strictly_smaller;
use vstd::arithmetic::div_mod::lemma_small_div_converse;
use vstd::arithmetic::div_mod::lemma_small_mod;
use vstd::arithmetic::div_mod::lemma_fundamental_div_mod;
use vstd::arithmetic::div_mod::lemma_mod_bound;

/// The digits of `num` in base `base`, most significant first. Zero has the
/// single digit `0`; every number has at least one digit.
pub open spec fn spec_digits(num: int, base: int) -> Seq<int>
    decreases num,
    when 0 <= num && 2 <= base
    via spec_digits_decreases
{
    if num < base {
        seq![num]
    } else {
        spec_digits(num / base, base).push(num % base)
    }
}

#[via_fn]
proof fn spec_digits_decreases(num: int, base: int) {
    if num >= base {
        lemma_div_is_strictly_smaller(num, base);
    }
}

/// The number a digit sequence (most significant first) stands for in base
/// `base`: the empty sequence stands for 0.
pub open spec fn spec_digits_to_int(s: Seq<int>, base: int) -> int
    decreases s.len(),
{
    if s.len() == 0 {
        0
    } else {
        spec_digits_to_int(s.drop_last(), base) * base + s.last()
    }
}

/// A byte sequence read as a sequence of mathematical integers.
pub open spec fn digit_seq(s: Seq<u8>) -> Seq<int> {
    Seq::new(s.len(), |i: int| s[i] as int)
}

/// Decomposing a number into digits and recomposing them gives the number
/// back, in every base.
pub proof fn lemma_digits_round_trip(num: int, base: int)
    requires
        0 <= num,
        2 <= base,
    ensures
        spec_digits_to_int(spec_digits(num, base), base) == num,
    decreases num,
{
    reveal_with_fuel(spec_digits_to_int, 2);
    if num < base {
        assert(seq![num].drop_last() =~= Seq::<int>::empty());
        assert(spec_digits_to_int(seq![num], base) == 0 * base + num);
    } else {
        lemma_div_is_strictly_smaller(num, base);
        lemma_digits_round_trip(num / base, base);
        let s = spec_digits(num / base, base);
        let m = num % base;
        assert(s.push(m).drop_last() =~= s);
        assert(spec_digits_to_int(s.push(m), base) == spec_digits_to_int(s, base) * base + m);
        lemma_fundamental_div_mod(num, base);
        assert((num / base) * base + m == num);
    }
}

/// The digits of `num` in base `base`, most significant first, collected
/// iteratively (least significant first, then reversed).
pub fn digits_base(num: u32, base: u8) -> (r: Vec<u8>)
    requires
        2 <= base,
    ensures
        digit_seq(r@) == spec_digits(num as int, base as int),
        r@.len() >= 1,
        forall|k: int| 0 <= k < r@.len() ==> #[trigger] (r@[k] as int) < base,
{
    let b: u32 = base as u32;
    let mut rev: Vec<u8> = Vec::new();
    let mut cur: u32 = num;
    rev.push((cur % b) as u8);
    cur = cur / b;
    proof {
        assert(cur == num / b);
        assert(cur as int == (num as int) / (b as int));
        lemma_fundamental_div_mod(num as int, b as int);
        lemma_mod_bound(num as int, b as int);
        assert((num as int) == (b as int) * ((num as int) / (b as int)) + ((num as int) % (
        b as int)));
        assert(0 <= (num as int) % (b as int) < (b as int));
        assert(digit_seq(rev@).reverse() =~= seq![(num as int) % (b as int)]);
        if cur == 0 {
            lemma_small_div_converse(num as int, b as int);
            assert((num as int) < (b as int));
            lemma_small_mod(num as nat, b as nat);
            assert((num as int) % (b as int) == num as int);
            assert(spec_digits(num as int, b as int) =~= Seq::<int>::empty() + digit_seq(
                rev@,
            ).reverse());
        } else {
            assert((num as int) >= (b as int)) by (nonlinear_arith)
                requires
                    (num as int) == (b as int) * ((num as int) / (b as int)) + ((num as int) % (
                    b as int)),
                    (num as int) / (b as int) >= 1,
                    0 <= (num as int) % (b as int),
                    2 <= b as int,
            ;
            assert(spec_digits(num as int, b as int) =~= spec_digits(cur as int, b as int)
                + digit_seq(rev@).reverse());
        }
    }
    while cur > 0
        invariant
            2 <= b <= 255,
            b == base as u32,
            1 <= rev@.len(),
            forall|k: int| 0 <= k < rev@.len() ==> #[trigger] (rev@[k] as int) < b,
            spec_digits(num as int, b as int) == (if cur > 0 {
                spec_digits(cur as int, b as int)
            } else {
                Seq::<int>::empty()
            }) + digit_seq(rev@).reverse(),
        decreases cur,
    {
        let ghost prev = rev@;
        let ghost prevcur = cur as int;
        rev.push((cur % b) as u8);
        cur = cur / b;
        proof {
            let bi = b as int;
            assert(cur as int == prevcur / bi);
            lemma_fundamental_div_mod(prevcur, bi);
            lemma_mod_bound(prevcur, bi);
            assert(prevcur == bi * (prevcur / bi) + prevcur % bi);
            assert(0 <= prevcur % bi < bi);
            assert(digit_seq(rev@).reverse() =~= seq![prevcur % bi] + digit_seq(prev).reverse());
            if cur == 0 {
                lemma_small_div_converse(prevcur, bi);
                assert(prevcur < bi);
                lemma_small_mod(prevcur as nat, bi as nat);
                assert(prevcur % bi == prevcur);
                assert(spec_digits(prevcur, bi) =~= seq![prevcur % bi]);
                assert(spec_digits(num as int, bi) =~= Seq::<int>::empty() + digit_seq(
                    rev@,
                ).reverse());
            } else {
                assert(prevcur >= bi) by (nonlinear_arith)
                    requires
                        prevcur == bi * (prevcur / bi) + prevcur % bi,
                        prevcur / bi >= 1,
                        0 <= prevcur % bi,
                        2 <= bi,
                ;
                assert(spec_digits(prevcur, bi) == spec_digits(prevcur / bi, bi).push(
                    prevcur % bi,
                ));
                assert(spec_digits(num as int, bi) =~= spec_digits(cur as int, bi) + digit_seq(
                    rev@,
                ).reverse());
            }
        }
    }
    let mut out: Vec<u8> = Vec::new();
    let mut k: usize = rev.len();
    while k > 0
        invariant
            k <= rev@.len(),
            out@.len() + k == rev@.len(),
            forall|j: int| 0 <= j < out@.len() ==> out@[j] == rev@[rev@.len() - 1 - j],
            forall|j: int| 0 <= j < rev@.len() ==> #[trigger] (rev@[j] as int) < b,
            2 <= b <= 255,
            b == base as u32,
            spec_digits(num as int, b as int) == digit_seq(rev@).reverse(),
        decreases k,
    {
        k = k - 1;
        out.push(rev[k]);
    }
    proof {
        assert(digit_seq(out@) =~= digit_seq(rev@).reverse());
    }
    out
}

/// The base-10 digits of `num`, most significant first.
pub fn digits(num: u32) -> (r: Vec<u8>)
    ensures
        digit_seq(r@) == spec_digits(num as int, 10),
        r@.len() >= 1,
        forall|k: int| 0 <= k < r@.len() ==> #[trigger] (r@[k] as int) < 10,
{
    digits_base(num, 10)
}

/// The reconstructed value of a sequence of non-negative digits is
/// non-negative.
proof fn lemma_digits_value_nonneg(s: Seq<int>, base: int)
    requires
        2 <= base,
        forall|k: int| 0 <= k < s.len() ==> 0 <= #[trigger] s[k],
    ensures
        0 <= spec_digits_to_int(s, base),
    decreases s.len(),
{
    if s.len() > 0 {
        lemma_digits_value_nonneg(s.drop_last(), base);
        let v = spec_digits_to_int(s.drop_last(), base);
        assert(0 <= v * base) by (nonlinear_arith)
            requires
                0 <= v,
                2 <= base,
        ;
    }
}

/// A prefix of a sequence of non-negative digits reconstructs to at most
/// what the whole sequence does.
proof fn lemma_digits_prefix_le(s: Seq<int>, i: int, base: int)
    requires
        2 <= base,
        0 <= i <= s.len(),
        forall|k: int| 0 <= k < s.len() ==> 0 <= #[trigger] s[k],
    ensures
        spec_digits_to_int(s.take(i), base) <= spec_digits_to_int(s, base),
    decreases s.len() - i,
{
    if i < s.len() {
        lemma_digits_prefix_le(s, i + 1, base);
        assert(s.take(i + 1).drop_last() =~= s.take(i));
        let v = spec_digits_to_int(s.take(i), base);
        assert(forall|k: int| 0 <= k < s.take(i).len() ==> 0 <= #[trigger] s.take(i)[k]);
        lemma_digits_value_nonneg(s.take(i), base);
        assert(v <= v * base + s[i]) by (nonlinear_arith)
            requires
                0 <= v,
                2 <= base,
                0 <= s[i],
        ;
    } else {
        assert(s.take(i) =~= s);
    }
}

/// Rebuilds the number a base-10 digit sequence (most significant first)
/// stands for. The sequence must be non-empty, hold digits below 10, and
/// stand for a value that fits the result type.
pub fn digits_to_int(digs: Vec<u8>) -> (r: u32)
    requires
        digs@.len() >= 1,
        forall|k: int| 0 <= k < digs@.len() ==> #[trigger] (digs@[k] as int) < 10,
        spec_digits_to_int(digit_seq(digs@), 10) <= u32::MAX,
    ensures
        r == spec_digits_to_int(digit_seq(digs@), 10),
{
    let mut acc: u32 = 0;
    let mut idx: usize = 0;
    while idx < digs.len()
        invariant
            idx <= digs@.len(),
            acc == spec_digits_to_int(digit_seq(digs@).take(idx as int), 10),
            forall|k: int| 0 <= k < digs@.len() ==> #[trigger] (digs@[k] as int) < 10,
            spec_digits_to_int(digit_seq(digs@), 10) <= u32::MAX,
        decreases digs@.len() - idx,
    {
        proof {
            let s = digit_seq(digs@);
            lemma_digits_prefix_le(s, idx as int + 1, 10);
            assert(s.take(idx as int + 1).drop_last() =~= s.take(idx as int));
            lemma_digits_value_nonneg(s.take(idx as int), 10);
        }
        acc = acc * 10 + (digs[idx] as u32);
        idx = idx + 1;
    }
    proof {
        assert(digit_seq(digs@).take(digs@.len() as int) =~= digit_seq(digs@));
    }
    acc
}

/// A number is a palindrome in a base when its digit sequence reads the
/// same forwards and backwards.
pub open spec fn spec_is_palindrome(num: int, base: int) -> bool {
    spec_digits(num, base) == spec_digits(num, base).reverse()
}

/// Whether `num` is a palindrome in base `base`, checked by comparing the
/// first half of the digit sequence against the mirrored second half.
pub fn is_palindrome_base(num: u32, base: u8) -> (r: bool)
    requires
        2 <= base,
    ensures
        r == spec_is_palindrome(num as int, base as int),
{
    let expanded = digits_base(num, base);
    let ghost s = spec_digits(num as int, base as int);
    let len = expanded.len();
    let mut idx: usize = 0;
    while idx < len / 2
        invariant
            idx <= len / 2,
            len == expanded@.len(),
            2 <= base,
            s == spec_digits(num as int, base as int),
            digit_seq(expanded@) == s,
            forall|j: int| 0 <= j < idx ==> #[trigger] s[j] == s[s.len() - 1 - j],
        decreases len / 2 - idx,
    {
        if expanded[idx] != expanded[len - 1 - idx] {
            proof {
                assert(s[idx as int] != s[s.len() - 1 - idx as int]);
                assert(s.reverse()[idx as int] == s[s.len() - 1 - idx as int]);
                if s == s.reverse() {
                    assert(s[idx as int] == s.reverse()[idx as int]);
                    assert(false);
                }
                assert(s != s.reverse());
            }
            return false;
        }
        idx = idx + 1;
    }
    proof {
        assert forall|j: int| 0 <= j < s.len() implies #[trigger] s[j] == s[s.len() - 1 - j] by {
            if j >= len / 2 {
                let j2 = s.len() - 1 - j;
                assert(j2 <= j);
                if j2 < j {
                    assert(s[j2] == s[s.len() - 1 - j2]);
                }
            }
        };
        assert(s =~= s.reverse());
    }
    true
}

/// Whether `num` is a base-10 palindrome.
pub fn is_palindrome(num: u32) -> (r: bool)
    ensures
        r == spec_is_palindrome(num as int, 10),
{
    is_palindrome_base(num, 10)
}

/// The nine base-10 digits of `num` read from a fixed nine-slot window,
/// least significant first; numbers shorter than nine digits are padded
/// with zeros.
pub open spec fn spec_nine_digits(num: int) -> Seq<int> {
    seq![
        num % 10,
        (num / 10) % 10,
        (num / 100) % 10,
        (num / 1000) % 10,
        (num / 10000) % 10,
        (num / 100000) % 10,
        (num / 1000000) % 10,
        (num / 10000000) % 10,
        (num / 100000000) % 10,
    ]
}

/// How many entries of `s` equal `v`.
pub open spec fn spec_count(s: Seq<int>, v: int) -> int
    decreases s.len(),
{
    if s.len() == 0 {
        0
    } else {
        spec_count(s.drop_last(), v) + (if s.last() == v {
            1int
        } else {
            0int
        })
    }
}

/// Nine-pandigital: at most nine digits long, with each digit 1 through 9
/// occurring exactly once in the nine-slot window.
pub open spec fn spec_is_pandigital(num: int) -> bool {
    &&& num <= 987654321
    &&& forall|v: int| 1 <= v <= 9 ==> #[trigger] spec_count(spec_nine_digits(num), v) == 1
}

/// A sequence of 32-bit values read as mathematical integers.
spec fn u32_seq(s: Seq<u32>) -> Seq<int> {
    Seq::new(s.len(), |i: int| s[i] as int)
}

/// How many entries of `v` equal `target`.
fn count_occurrences(v: &Vec<u32>, target: u32) -> (c: u64)
    ensures
        c == spec_count(u32_seq(v@), target as int),
{
    let mut c: u64 = 0;
    let mut idx: usize = 0;
    while idx < v.len()
        invariant
            idx <= v@.len(),
            c <= idx,
            c == spec_count(u32_seq(v@).take(idx as int), target as int),
        decreases v@.len() - idx,
    {
        proof {
            assert(u32_seq(v@).take(idx as int + 1).drop_last() =~= u32_seq(v@).take(idx as int));
        }
        if v[idx] == target {
            c = c + 1;
        }
        idx = idx + 1;
    }
    proof {
        assert(u32_seq(v@).take(v@.len() as int) =~= u32_seq(v@));
    }
    c
}

/// Whether `num` is nine-pandigital: its nine-slot digit window holds each
/// of the digits 1 through 9 exactly once. Out-of-range input gives false
/// rather than an error.
pub fn is_pandigital(num: u32) -> (r: bool)
    ensures
        r == spec_is_pandigital(num as int),
{
    if num > 987654321 {
        return false;
    }
    let mut ds: Vec<u32> = Vec::new();
    ds.push(num % 10);
    ds.push(num / 10 % 10);
    ds.push(num / 100 % 10);
    ds.push(num / 1000 % 10);
    ds.push(num / 10000 % 10);
    ds.push(num / 100000 % 10);
    ds.push(num / 1000000 % 10);
    ds.push(num / 10000000 % 10);
    ds.push(num / 100000000 % 10);
    proof {
        assert(u32_seq(ds@) =~= spec_nine_digits(num as int));
    }
    let mut v: u32 = 1;
    while v <= 9
        invariant
            1 <= v <= 10,
            num <= 987654321,
            u32_seq(ds@) == spec_nine_digits(num as int),
            forall|w: int| 1 <= w < v ==> #[trigger] spec_count(spec_nine_digits(num as int), w)
                == 1,
        decreases 10 - v,
    {
        let c = count_occurrences(&ds, v);
        if c != 1 {
            return false;
        }
        v = v + 1;
    }
    true
}

} // verus!
