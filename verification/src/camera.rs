use vstd::arithmetic::power::pow;
use vstd::prelude::*;

verus! {

/// The number whose base-`base` digits, least significant first, are `d`.
pub open spec fn digits_value(d: Seq<u32>, base: int) -> int
    decreases d.len(),
{
    if d.len() == 0 {
        0
    } else {
        digits_value(d.drop_last(), base) + d.last() * pow(base, (d.len() - 1) as nat)
    }
}

/// The base-`base` digits of `index`, least significant first, as the Halton
/// sequence consumes them: the value at `index` is the sum over `k` of
/// `digit[k] / base^(k+1)`. Zero has no digits; otherwise the last digit is
/// not zero. For a non-zero index a base below 2 never terminates (1) or
/// divides by zero (0), so those inputs are left out.
pub fn halton_digits(index: u32, base: u32) -> (r: Vec<u32>)
    requires
        base >= 2 || index == 0,
    ensures
        digits_value(r@, base as int) == index,
        forall|k: int| 0 <= k < r@.len() ==> #[trigger] r@[k] < base,
        r@.len() == 0 <==> index == 0,
        r@.len() > 0 ==> r@.last() != 0,
{
    let mut r: Vec<u32> = Vec::new();
    let mut i: u32 = index;
    proof {
        vstd::arithmetic::power::lemma_pow0(base as int);
    }
    while i > 0
        invariant
            base >= 2 || i == 0,
            index == digits_value(r@, base as int) + i * pow(base as int, r@.len()),
            forall|k: int| 0 <= k < r@.len() ==> #[trigger] r@[k] < base,
            r@.len() == 0 ==> i == index,
            r@.len() > 0 ==> index > 0,
            r@.len() > 0 && i == 0 ==> r@.last() != 0,
            pow(base as int, r@.len()) > 0,
        decreases i,
    {
        let ghost old_r = r@;
        let ghost b: int = base as int;
        let ghost p: int = pow(b, r@.len());
        let d = i % base;
        let q = i / base;
        r.push(d);
        proof {
            assert(r@.drop_last() =~= old_r);
            vstd::arithmetic::power::lemma_pow_positive(b, r@.len());
            assert(pow(b, r@.len()) == b * p) by {
                vstd::arithmetic::power::lemma_pow1(b);
                vstd::arithmetic::power::lemma_pow_adds(b, old_r.len(), 1);
            }
            assert(i == q * b + d) by (nonlinear_arith)
                requires
                    d == i % base,
                    q == i / base,
                    b == base,
                    base >= 2,
            ;
            assert(d * p + q * (b * p) == i * p) by (nonlinear_arith)
                requires
                    i == q * b + d,
            ;
            assert(q < i) by (nonlinear_arith)
                requires
                    q == i / base,
                    base >= 2,
                    i > 0,
            ;
            if q == 0 {
                assert(q * b == 0) by (nonlinear_arith)
                    requires
                        q == 0,
                ;
                assert(d == i);
                assert(r@.last() == d);
            }
        }
        i = q;
    }
    r
}

} // verus!
