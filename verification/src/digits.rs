//! Natural numbers of any size, as their decimal digits.

use crate::text;
use vstd::arithmetic::power2::*;
use vstd::prelude::*;

verus! {

/// The number that a row of decimal digits stands for, least significant first.
pub open spec fn digits_value(d: Seq<u8>) -> nat
    decreases d.len(),
{
    if d.len() == 0 {
        0
    } else {
        d[0] as nat + 10 * digits_value(d.drop_first())
    }
}

/// Ten to the power of `n`.
pub open spec fn pow10(n: nat) -> nat
    decreases n,
{
    if n == 0 {
        1
    } else {
        10 * pow10((n - 1) as nat)
    }
}

/// Whether a row holds decimal digits only and its most significant digit is not
/// zero.
pub open spec fn is_numeral(d: Seq<u8>) -> bool {
    &&& d.len() > 0
    &&& d.last() != 0
    &&& forall|i: int| 0 <= i < d.len() ==> #[trigger] d[i] < 10
}

/// One more digit on the most significant side.
proof fn lemma_value_push(d: Seq<u8>, x: u8)
    ensures
        digits_value(d.push(x)) == digits_value(d) + x * pow10(d.len()),
    decreases d.len(),
{
    if d.len() == 0 {
        assert(d.push(x).drop_first() =~= d);
        assert(x * pow10(0) == x) by (nonlinear_arith)
            requires
                pow10(0) == 1,
        ;
    } else {
        lemma_value_push(d.drop_first(), x);
        assert(d.push(x).drop_first() =~= d.drop_first().push(x));
        let rest = digits_value(d.drop_first());
        let p = pow10((d.len() - 1) as nat);
        assert(10 * (rest + x * p) == 10 * rest + x * (10 * p)) by (nonlinear_arith);
    }
}

/// A numeral stands for a positive number.
proof fn lemma_numeral_positive(d: Seq<u8>)
    requires
        is_numeral(d),
    ensures
        digits_value(d) > 0,
    decreases d.len(),
{
    if d.len() > 1 {
        assert(d.drop_first().last() == d.last());
        lemma_numeral_positive(d.drop_first());
    }
}

/// Twice the number.
fn doubled(d: &Vec<u8>) -> (r: Vec<u8>)
    requires
        is_numeral(d@),
    ensures
        is_numeral(r@),
        digits_value(r@) == 2 * digits_value(d@),
{
    let mut r: Vec<u8> = Vec::new();
    let mut carry: u8 = 0;
    let mut i: usize = 0;
    assert(d@.take(0) =~= Seq::<u8>::empty());
    while i < d.len()
        invariant
            is_numeral(d@),
            i <= d@.len(),
            r@.len() == i,
            carry <= 1,
            forall|j: int| 0 <= j < i ==> #[trigger] r@[j] < 10,
            i > 0 && carry == 0 ==> (d@[i - 1] != 0 ==> r@[i - 1] != 0),
            digits_value(r@) + carry * pow10(i as nat) == 2 * digits_value(d@.take(i as int)),
        decreases d@.len() - i,
    {
        let ghost before = r@;
        let ghost old_carry = carry;
        let x: u8 = d[i];
        let twice: u8 = 2 * x + carry;
        let low: u8 = if twice >= 10 { twice - 10 } else { twice };
        carry = if twice >= 10 { 1 } else { 0 };
        r.push(low);
        proof {
            lemma_value_push(before, low);
            lemma_value_push(d@.take(i as int), x);
            assert(d@.take(i + 1) =~= d@.take(i as int).push(x));
            let p = pow10(i as nat);
            assert(pow10((i + 1) as nat) == 10 * p);
            assert(low * p + carry * (10 * p) == 2 * (x * p) + old_carry * p) by (nonlinear_arith)
                requires
                    low + 10 * carry == 2 * x + old_carry,
            ;
        }
        i += 1;
    }
    assert(d@.take(i as int) =~= d@);
    if carry > 0 {
        let ghost before = r@;
        r.push(1);
        proof {
            lemma_value_push(before, 1);
        }
    }
    r
}

/// The digits of a positive number.
fn digits_of(n: u64) -> (r: Vec<u8>)
    requires
        n > 0,
    ensures
        is_numeral(r@),
        digits_value(r@) == n,
{
    let mut r: Vec<u8> = Vec::new();
    let mut left: u64 = n;
    assert(left * pow10(0) == left) by (nonlinear_arith)
        requires
            pow10(0) == 1,
    ;
    while left > 0
        invariant
            n > 0,
            left == 0 ==> r@.len() > 0 && r@.last() != 0,
            forall|j: int| 0 <= j < r@.len() ==> #[trigger] r@[j] < 10,
            digits_value(r@) + left * pow10(r@.len()) == n,
        decreases left,
    {
        let ghost before = r@;
        let ghost old_left = left;
        let low: u8 = (left % 10) as u8;
        r.push(low);
        left = left / 10;
        proof {
            lemma_value_push(before, low);
            let p = pow10(before.len());
            assert(pow10(r@.len()) == 10 * p);
            assert(low * p + left * (10 * p) == old_left * p) by (nonlinear_arith)
                requires
                    old_left == 10 * left + low,
            ;
        }
    }
    r
}

/// Writes `m` times two to the power of `e` in base ten at the end of `out`.
pub fn append_scaled(out: &mut String, m: u64, e: u32)
    requires
        m > 0,
    ensures
        final(out)@ == old(out)@ + text::decimal(m as nat * pow2(e as nat)),
{
    let mut d = digits_of(m);
    let mut i: u32 = 0;
    proof {
        lemma2_to64();
    }
    while i < e
        invariant
            i <= e,
            is_numeral(d@),
            digits_value(d@) == m as nat * pow2(i as nat),
        decreases e - i,
    {
        proof {
            lemma_pow2_unfold((i + 1) as nat);
            let p = pow2(i as nat);
            assert(2 * (m as nat * p) == m as nat * (2 * p)) by (nonlinear_arith);
        }
        d = doubled(&d);
        i += 1;
    }
    let ghost start = out@;
    let mut k: usize = d.len();
    proof {
        lemma_numeral_positive(d@);
    }
    while k > 0
        invariant
            is_numeral(d@),
            k <= d@.len(),
            k < d@.len() ==> out@ == start + text::decimal(digits_value(d@.skip(k as int))),
            k == d@.len() ==> out@ == start,
        decreases k,
    {
        k -= 1;
        let x: u8 = d[k];
        out.push(text::digit(x as u64));
        proof {
            let s = d@.skip(k as int);
            let rest = digits_value(d@.skip(k + 1));
            assert(s.drop_first() =~= d@.skip(k + 1));
            assert(digits_value(s) == x + 10 * rest);
            assert(digits_value(s) / 10 == rest && digits_value(s) % 10 == x);
            if k + 1 < d@.len() {
                assert(d@.skip(k + 1).last() == d@.last());
                lemma_numeral_positive(d@.skip(k + 1));
            } else {
                assert(s.drop_first() =~= Seq::<u8>::empty());
            }
            assert(out@ =~= start + text::decimal(digits_value(s)));
        }
    }
    assert(d@.skip(0) =~= d@);
}

} // verus!
