use vstd::prelude::*;

verus! {

/// `d` divides `n` exactly.
pub open spec fn divides(d: nat, n: nat) -> bool {
    d > 0 && n % d == 0
}

/// `n` is a prime number: at least 2, and no divisor strictly between 1 and `n`.
pub open spec fn spec_is_prime(n: nat) -> bool {
    &&& n >= 2
    &&& forall|d: nat| 2 <= d < n ==> !#[trigger] divides(d, n)
}

proof fn lemma_cofactor(n: nat, d: nat, i: nat)
    requires
        2 <= d < n,
        divides(d, n),
        i * i > n,
        d >= i,
    ensures
        exists|e: nat| 2 <= e < i && #[trigger] divides(e, n),
{
    let e = n / d;
    assert(n == d * e) by (nonlinear_arith)
        requires d > 0, n % d == 0, e == n / d;
    assert(e >= 2) by (nonlinear_arith)
        requires n == d * e, d < n;
    assert(e < i) by (nonlinear_arith)
        requires n == d * e, d >= i, i * i > n;
    assert(n % e == 0) by (nonlinear_arith)
        requires n == d * e, e >= 2;
    assert(divides(e, n));
}

/// Trial division by 2 and by the odd numbers up to the square root of `num`.
pub fn is_prime(num: usize) -> (r: bool)
    ensures
        r == spec_is_prime(num as nat),
{
    if num < 2 {
        return false;
    }
    if num < 4 {
        assert(forall|d: nat| 2 <= d < num ==> !#[trigger] divides(d, num as nat)) by {
            assert forall|d: nat| 2 <= d < num implies !#[trigger] divides(d, num as nat) by {
                if num == 3 && d == 2 {
                    assert(3nat % 2 == 1);
                }
            }
        }
        return true;
    }
    if num % 2 == 0 {
        assert(divides(2, num as nat));
        return false;
    }
    let mut i: usize = 3;
    while i <= num / i
        invariant
            3 <= i <= num,
            i % 2 == 1,
            num % 2 == 1,
            num >= 4,
            forall|d: nat| 2 <= d < i ==> !#[trigger] divides(d, num as nat),
        decreases num - i,
    {
        assert(i * i <= num) by (nonlinear_arith)
            requires i <= num / i, i > 0;
        assert(3 * i <= num) by (nonlinear_arith)
            requires i * i <= num, i >= 3;
        if num % i == 0 {
            assert(divides(i as nat, num as nat));
            return false;
        }
        assert(!divides((i + 1) as nat, num as nat)) by {
            let n = num as nat;
            let j = (i + 1) as nat;
            if divides(j, n) {
                let k = n / j;
                assert(n == j * k) by (nonlinear_arith)
                    requires n % j == 0, k == n / j, j > 0;
                let m = j / 2;
                assert(n == 2 * (m * k)) by (nonlinear_arith)
                    requires n == j * k, j == 2 * m;
            }
        }
        i = i + 2;
    }
    assert(i * i > num) by (nonlinear_arith)
        requires i > num / i, i > 0;
    assert forall|d: nat| 2 <= d < num implies !#[trigger] divides(d, num as nat) by {
        if d >= i && divides(d, num as nat) {
            lemma_cofactor(num as nat, d, i as nat);
        }
    }
    true
}

} // verus!
