//! The canonical order of truth-table rows.
//!
//! A table over `n` inputs has `2^n` rows. Row `r` holds the `n`-bit
//! big-endian pattern of the number `2^n - 1 - r`, so the all-true row comes
//! first and the all-false row last.

use vstd::arithmetic::div_mod::*;
use vstd::arithmetic::power2::*;
use vstd::prelude::*;

verus! {

/// Bit `k` of the number `v`, counted from the least significant end.
pub open spec fn bit(v: nat, k: nat) -> bool {
    (v / pow2(k)) % 2 == 1
}

/// The `n` low bits of `v`, most significant first.
pub open spec fn bits_of(v: nat, n: nat) -> Seq<bool> {
    Seq::new(n, |k: int| bit(v, (n - 1 - k) as nat))
}

/// The number that a bit pattern spells, most significant bit first.
pub open spec fn value_of(bits: Seq<bool>) -> nat
    decreases bits.len(),
{
    if bits.len() == 0 {
        0
    } else {
        2 * value_of(bits.drop_last()) + if bits.last() {
            1nat
        } else {
            0nat
        }
    }
}

/// Row `r` of the table over `n` inputs.
pub open spec fn row(n: nat, r: nat) -> Seq<bool> {
    bits_of((pow2(n) - 1 - r) as nat, n)
}

/// The position of the row that equals `input` in the table over
/// `input.len()` inputs.
pub open spec fn row_index(input: Seq<bool>) -> nat {
    (pow2(input.len()) - 1 - value_of(input)) as nat
}

/// Shifting right by one more place is halving first.
pub proof fn lemma_bit_of_half(v: nat, k: nat)
    ensures
        bit(v, k + 1) == bit(v / 2, k),
{
    lemma_pow2_unfold(k + 1);
    lemma_pow2_pos(k);
    lemma_div_denominator(v as int, 2, pow2(k) as int);
}

/// The pattern of `v` is the pattern of `v / 2` followed by the parity of `v`.
pub proof fn lemma_bits_of_unfold(v: nat, n: nat)
    requires
        n > 0,
    ensures
        bits_of(v, n) == bits_of(v / 2, (n - 1) as nat).push(v % 2 == 1),
{
    let left = bits_of(v, n);
    let right = bits_of(v / 2, (n - 1) as nat).push(v % 2 == 1);
    assert forall|k: int| 0 <= k < n implies left[k] == right[k] by {
        if k < n - 1 {
            lemma_bit_of_half(v, (n - 2 - k) as nat);
            assert(left[k] == bit(v, ((n - 2 - k) as nat + 1) as nat));
            assert(right[k] == bits_of(v / 2, (n - 1) as nat)[k]);
        } else {
            lemma2_to64();
            assert(left[k] == bit(v, 0));
            assert(right[k] == (v % 2 == 1));
        }
    }
    assert(left =~= right);
}

/// A pattern of `n` bits spells a number below `2^n`.
pub proof fn lemma_value_of_bound(bits: Seq<bool>)
    ensures
        value_of(bits) < pow2(bits.len()),
    decreases bits.len(),
{
    if bits.len() == 0 {
        lemma2_to64();
    } else {
        lemma_value_of_bound(bits.drop_last());
        lemma_pow2_unfold(bits.len());
    }
}

/// Spelling the `n`-bit pattern of a number below `2^n` gives the number back.
pub proof fn lemma_value_of_bits_of(v: nat, n: nat)
    requires
        v < pow2(n),
    ensures
        value_of(bits_of(v, n)) == v,
    decreases n,
{
    if n == 0 {
        lemma2_to64();
    } else {
        lemma_bits_of_unfold(v, n);
        lemma_pow2_unfold(n);
        let shorter = bits_of(v / 2, (n - 1) as nat);
        assert(shorter.push(v % 2 == 1).drop_last() =~= shorter);
        lemma_value_of_bits_of(v / 2, (n - 1) as nat);
    }
}

/// Every pattern is the pattern of the number it spells.
pub proof fn lemma_bits_of_value_of(bits: Seq<bool>)
    ensures
        bits_of(value_of(bits), bits.len()) == bits,
    decreases bits.len(),
{
    if bits.len() == 0 {
        assert(bits_of(value_of(bits), 0) =~= bits);
    } else {
        let v = value_of(bits);
        lemma_bits_of_unfold(v, bits.len());
        lemma_bits_of_value_of(bits.drop_last());
        assert(bits.drop_last().push(bits.last()) =~= bits);
    }
}

/// Two different rows of one table spell different numbers, and a later row
/// spells a smaller one: the table has `2^n` distinct rows in strictly
/// descending order of their big-endian value.
pub proof fn lemma_rows_descend(n: nat, earlier: nat, later: nat)
    requires
        earlier < later < pow2(n),
    ensures
        row(n, earlier).len() == n,
        row(n, later).len() == n,
        value_of(row(n, earlier)) == pow2(n) - 1 - earlier,
        value_of(row(n, later)) == pow2(n) - 1 - later,
        value_of(row(n, earlier)) > value_of(row(n, later)),
        row(n, earlier) != row(n, later),
{
    lemma_value_of_bits_of((pow2(n) - 1 - earlier) as nat, n);
    lemma_value_of_bits_of((pow2(n) - 1 - later) as nat, n);
}

/// The row at `row_index(input)` is `input`, and no other row is.
pub proof fn lemma_row_index(input: Seq<bool>, r: nat)
    ensures
        row_index(input) < pow2(input.len()),
        row(input.len(), row_index(input)) == input,
        r < pow2(input.len()) && row(input.len(), r) == input ==> r == row_index(input),
{
    lemma_value_of_bound(input);
    lemma_bits_of_value_of(input);
    if r < pow2(input.len()) {
        lemma_value_of_bits_of((pow2(input.len()) - 1 - r) as nat, input.len());
    }
}

/// Every exponent below the word size gives a power of two that fits a word.
pub proof fn lemma_pow2_fits(e: nat)
    requires
        e < usize::BITS,
    ensures
        pow2(e) <= usize::MAX,
{
    vstd::layout::unsigned_int_max_values();
    lemma_pow2_strictly_increases(e, usize::BITS as nat);
}

/// `2^e` as a machine word.
pub fn power_of_two(e: usize) -> (p: usize)
    requires
        e < usize::BITS,
    ensures
        p == pow2(e as nat),
{
    let mut p: usize = 1;
    let mut k: usize = 0;
    proof {
        lemma2_to64();
    }
    while k < e
        invariant
            k <= e < usize::BITS,
            p == pow2(k as nat),
        decreases e - k,
    {
        proof {
            lemma_pow2_unfold((k + 1) as nat);
            lemma_pow2_fits((k + 1) as nat);
        }
        p = p * 2;
        k = k + 1;
    }
    p
}

/// The `n` low bits of `v`, most significant first.
pub fn bits(v: usize, n: usize) -> (out: Vec<bool>)
    requires
        n < usize::BITS,
    ensures
        out@ == bits_of(v as nat, n as nat),
{
    let mut out: Vec<bool> = Vec::new();
    let mut k: usize = 0;
    let mut mask: usize = power_of_two(n);
    while k < n
        invariant
            k <= n < usize::BITS,
            mask == pow2((n - k) as nat),
            out@ == bits_of(v as nat, n as nat).take(k as int),
        decreases n - k,
    {
        proof {
            lemma_pow2_unfold((n - k) as nat);
            lemma_pow2_pos((n - k - 1) as nat);
        }
        mask = mask / 2;
        out.push((v / mask) % 2 == 1);
        k = k + 1;
        assert(out@ =~= bits_of(v as nat, n as nat).take(k as int));
    }
    assert(out@ =~= bits_of(v as nat, n as nat));
    out
}

/// The number that a bit pattern spells, most significant bit first.
pub fn spell(pattern: &Vec<bool>) -> (v: usize)
    requires
        pattern@.len() < usize::BITS,
    ensures
        v == value_of(pattern@),
{
    let mut v: usize = 0;
    let mut k: usize = 0;
    while k < pattern.len()
        invariant
            k <= pattern@.len() < usize::BITS,
            v == value_of(pattern@.take(k as int)),
        decreases pattern@.len() - k,
    {
        proof {
            let next = pattern@.take(k + 1);
            assert(next.drop_last() =~= pattern@.take(k as int));
            lemma_value_of_bound(next);
            lemma_pow2_fits(next.len());
        }
        v = 2 * v + if pattern[k] {
            1
        } else {
            0
        };
        k = k + 1;
    }
    assert(pattern@.take(k as int) =~= pattern@);
    v
}

/// Every row of the truth table over `inputs` inputs, in canonical order.
#[derive(Debug, PartialEq)]
pub struct Values {
    pub inputs: usize,
    pub values: Vec<Vec<bool>>,
}

impl Values {
    /// Enumerates the `2^inputs` rows, from all-true down to all-false.
    pub fn genvalues(inputs: usize) -> (table: Values)
        requires
            inputs < usize::BITS,
        ensures
            table.inputs == inputs,
            table.values@.len() == pow2(inputs as nat),
            forall|r: int|
                0 <= r < table.values@.len() ==> (#[trigger] table.values@[r])@ == row(
                    inputs as nat,
                    r as nat,
                ),
    {
        let total: usize = power_of_two(inputs);
        let mut values: Vec<Vec<bool>> = Vec::new();
        let mut r: usize = 0;
        while r < total
            invariant
                r <= total,
                total == pow2(inputs as nat),
                inputs < usize::BITS,
                values@.len() == r,
                forall|i: int|
                    0 <= i < r ==> (#[trigger] values@[i])@ == row(inputs as nat, i as nat),
            decreases total - r,
        {
            values.push(bits(total - 1 - r, inputs));
            r = r + 1;
        }
        Values { inputs, values }
    }
}

} // verus!
