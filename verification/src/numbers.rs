//! Factorials, binomial coefficients and numbers written in a fixed base.

use vstd::arithmetic::div_mod::{
    lemma_div_by_multiple, lemma_fundamental_div_mod, lemma_fundamental_div_mod_converse,
    lemma_mod_bound, lemma_mod_pos_bound, lemma_multiply_divide_lt,
};
use vstd::arithmetic::power::{lemma_pow_increases, lemma_pow_positive, pow};
use vstd::prelude::*;

verus! {

/// The product of the numbers from 1 to `n`.
pub open spec fn factorial(n: nat) -> nat
    decreases n,
{
    if n == 0 {
        1
    } else {
        n * factorial((n - 1) as nat)
    }
}

/// The binomial coefficient: the number of ways to choose `k` of `n` things.
pub open spec fn binom(n: nat, k: nat) -> nat
    decreases n,
{
    if k == 0 {
        1
    } else if n == 0 {
        0
    } else {
        binom((n - 1) as nat, (k - 1) as nat) + binom((n - 1) as nat, k)
    }
}

/// No factorial is 0.
pub proof fn lemma_factorial_positive(n: nat)
    ensures
        factorial(n) >= 1,
    decreases n,
{
    if n > 0 {
        lemma_factorial_positive((n - 1) as nat);
        assert(n * factorial((n - 1) as nat) >= 1) by (nonlinear_arith)
            requires
                n >= 1,
                factorial((n - 1) as nat) >= 1,
        ;
    }
}

/// The factorial grows with its argument.
pub proof fn lemma_factorial_increases(m: nat, n: nat)
    requires
        m <= n,
    ensures
        factorial(m) <= factorial(n),
    decreases n,
{
    if m < n {
        lemma_factorial_increases(m, (n - 1) as nat);
        lemma_factorial_positive((n - 1) as nat);
        assert(n * factorial((n - 1) as nat) >= factorial((n - 1) as nat)) by (nonlinear_arith)
            requires
                n >= 1,
        ;
    }
}

/// The factorials up to that of 12, the largest that fits in 32 bits.
pub proof fn lemma_factorial_values()
    ensures
        factorial(0) == 1,
        factorial(1) == 1,
        factorial(2) == 2,
        factorial(3) == 6,
        factorial(4) == 24,
        factorial(5) == 120,
        factorial(6) == 720,
        factorial(7) == 5040,
        factorial(8) == 40320,
        factorial(9) == 362880,
        factorial(10) == 3628800,
        factorial(11) == 39916800,
        factorial(12) == 479001600,
{
    reveal_with_fuel(factorial, 13);
}

/// There is no way to choose more than there is.
pub proof fn lemma_binom_none(n: nat, k: nat)
    requires
        k > n,
    ensures
        binom(n, k) == 0,
    decreases n,
{
    if n > 0 {
        lemma_binom_none((n - 1) as nat, (k - 1) as nat);
        lemma_binom_none((n - 1) as nat, k);
    }
}

/// The binomial coefficient is the quotient of factorials.
pub proof fn lemma_binom_factorials(n: nat, k: nat)
    requires
        k <= n,
    ensures
        binom(n, k) * (factorial(k) * factorial((n - k) as nat)) == factorial(n),
        binom(n, k) >= 1,
    decreases n,
{
    lemma_factorial_positive(n);
    lemma_factorial_positive(k);
    lemma_factorial_positive((n - k) as nat);
    if k == 0 {
        assert(1 * (1 * factorial(n)) == factorial(n));
    } else {
        let a = binom((n - 1) as nat, (k - 1) as nat);
        let b = binom((n - 1) as nat, k);
        let fk1 = factorial((k - 1) as nat);
        let fnk = factorial((n - k) as nat);
        let fn1 = factorial((n - 1) as nat);
        lemma_binom_factorials((n - 1) as nat, (k - 1) as nat);
        assert(a * (fk1 * fnk) == fn1);
        assert(factorial(k) == k * fk1);
        if k == n {
            lemma_binom_none((n - 1) as nat, k);
            assert((a + b) * ((k * fk1) * fnk) == k * fn1) by (nonlinear_arith)
                requires
                    a * (fk1 * fnk) == fn1,
                    b == 0,
            ;
        } else {
            let fnk1 = factorial((n - k - 1) as nat);
            lemma_binom_factorials((n - 1) as nat, k);
            assert(b * ((k * fk1) * fnk1) == fn1);
            assert(fnk == (n - k) * fnk1);
            assert((a + b) * ((k * fk1) * ((n - k) * fnk1)) == n * fn1) by (nonlinear_arith)
                requires
                    a * (fk1 * ((n - k) * fnk1)) == fn1,
                    b * ((k * fk1) * fnk1) == fn1,
            ;
        }
        assert(binom(n, k) >= 1) by (nonlinear_arith)
            requires
                binom(n, k) * (factorial(k) * fnk) == factorial(n),
                factorial(n) >= 1,
                binom(n, k) >= 0,
        ;
    }
}

/// The factorial of `n`, for `n` up to 12.
pub fn factorial_of(n: usize) -> (f: usize)
    requires
        n <= 12,
    ensures
        f == factorial(n as nat),
        1 <= f <= 479001600,
{
    let mut f: usize = 1;
    let mut i: usize = 0;
    proof {
        lemma_factorial_values();
        lemma_factorial_increases(n as nat, 12);
        lemma_factorial_positive(n as nat);
    }
    while i < n
        invariant
            i <= n <= 12,
            f == factorial(i as nat),
            factorial(12) == 479001600,
        decreases n - i,
    {
        proof {
            lemma_factorial_increases((i + 1) as nat, 12);
            assert(f * (i + 1) == (i + 1) * f) by (nonlinear_arith);
            assert(factorial((i + 1) as nat) == (i + 1) * factorial(i as nat));
        }
        i += 1;
        f = f * i;
    }
    f
}

/// The binomial coefficient: C(N, K), for `n` up to 12.
pub fn binomial(n: usize, k: usize) -> (c: usize)
    requires
        n <= 12,
    ensures
        c == binom(n as nat, k as nat),
        c <= 479001600,
{
    if k > n {
        proof {
            lemma_binom_none(n as nat, k as nat);
        }
        return 0;
    }
    proof {
        lemma_binom_factorials(n as nat, k as nat);
    }
    let ghost b = binom(n as nat, k as nat) as int;
    let top = factorial_of(n);
    let low = factorial_of(k);
    let rest = factorial_of(n - k);
    assert(low * rest <= top && b <= top) by (nonlinear_arith)
        requires
            b * (low * rest) == top,
            b >= 1,
            low >= 1,
            rest >= 1,
    ;
    assert(low * rest >= 1) by (nonlinear_arith)
        requires
            low >= 1,
            rest >= 1,
    ;
    let d = low * rest;
    proof {
        lemma_div_by_multiple(b, d as int);
    }
    top / d
}

/// The entries of a byte slice as mathematical integers.
pub open spec fn bytes(s: Seq<u8>) -> Seq<int> {
    Seq::new(s.len(), |i: int| s[i] as int)
}

/// The sum of the entries of `s`.
pub open spec fn total(s: Seq<int>) -> int
    decreases s.len(),
{
    if s.len() == 0 {
        0
    } else {
        total(s.drop_last()) + s.last()
    }
}

/// The digits `d` followed by the one digit that makes the sum of all a
/// multiple of `base`.
pub open spec fn checked(d: Seq<int>, base: int) -> Seq<int> {
    d.push((base - total(d) % base) % base)
}

/// The check digit is a digit, and with it the digits add up to a multiple
/// of the base.
pub proof fn lemma_checked_total(d: Seq<int>, base: int)
    requires
        base >= 2,
        all_digits(d, base),
    ensures
        all_digits(checked(d, base), base),
        total(checked(d, base)) % base == 0,
        checked(d, base).len() == d.len() + 1,
{
    let t = total(d);
    let r = t % base;
    let q = t / base;
    let e = checked(d, base);
    lemma_mod_bound(t, base);
    lemma_mod_bound(base - r, base);
    lemma_fundamental_div_mod(t, base);
    assert(e.drop_last() =~= d);
    if r == 0 {
        lemma_fundamental_div_mod_converse(base, base, 1, 0);
        assert(base * q == q * base) by (nonlinear_arith);
        lemma_fundamental_div_mod_converse(t, base, q, 0);
    } else {
        lemma_fundamental_div_mod_converse(base - r, base, 0, base - r);
        assert(base * q + base == (q + 1) * base) by (nonlinear_arith);
        lemma_fundamental_div_mod_converse(t + base - r, base, q + 1, 0);
    }
    assert forall|i: int| 0 <= i < e.len() implies 0 <= #[trigger] e[i] < base by {
        if i < d.len() {
            assert(e[i] == d[i]);
        }
    }
}

/// Digits that add up to a multiple of the base end in their own check
/// digit.
pub proof fn lemma_checked_unique(s: Seq<int>, base: int)
    requires
        base >= 2,
        s.len() > 0,
        all_digits(s, base),
        total(s) % base == 0,
    ensures
        checked(s.drop_last(), base) == s,
{
    let d = s.drop_last();
    let t = total(d);
    let r = t % base;
    let q = t / base;
    let x = s.last();
    assert(0 <= x < base);
    lemma_mod_bound(t, base);
    lemma_fundamental_div_mod(t, base);
    lemma_fundamental_div_mod(t + x, base);
    let q2 = (t + x) / base;
    // base * q + r + x == base * q2, with 0 <= r + x < 2 * base
    assert(r + x == base * (q2 - q)) by (nonlinear_arith)
        requires
            t == base * q + r,
            t + x == base * q2 + 0,
    ;
    assert(q2 - q == 0 || q2 - q == 1) by (nonlinear_arith)
        requires
            r + x == base * (q2 - q),
            0 <= r + x < 2 * base,
            base >= 2,
    ;
    if q2 - q == 0 {
        assert(r == 0 && x == 0);
        lemma_fundamental_div_mod_converse(base, base, 1, 0);
    } else {
        assert(x == base - r);
        lemma_fundamental_div_mod_converse(base - r, base, 0, base - r);
    }
    assert(checked(d, base) =~= s);
}

/// The number that `count` bytes spell as digits of base `base`.
pub fn read_digits(a: &[u8], count: usize, base: usize) -> (v: usize)
    requires
        count <= a@.len(),
        base >= 2,
        255 * pow(base as int, count as nat) <= usize::MAX,
    ensures
        v == digits_value(bytes(a@).take(count as int), base as int),
{
    let ghost s = bytes(a@);
    let mut v: usize = 0;
    let mut i: usize = 0;
    proof {
        reveal(pow);
        assert(s.take(0) =~= Seq::<int>::empty());
        lemma_pow_positive(base as int, 0);
    }
    while i < count
        invariant
            i <= count <= a@.len(),
            s == bytes(a@),
            base >= 2,
            255 * pow(base as int, count as nat) <= usize::MAX,
            v == digits_value(s.take(i as int), base as int),
            v <= 255 * (pow(base as int, i as nat) - 1),
        decreases count - i,
    {
        proof {
            reveal(pow);
            let p = pow(base as int, i as nat);
            lemma_pow_positive(base as int, i as nat);
            lemma_pow_increases(base as nat, (i + 1) as nat, count as nat);
            assert(pow(base as int, (i + 1) as nat) == base * p);
            assert(v * base + 255 <= 255 * (base * p - 1)) by (nonlinear_arith)
                requires
                    v <= 255 * (p - 1),
                    base >= 2,
                    p >= 1,
                    v >= 0,
            ;
            assert(s.take(i as int + 1).drop_last() =~= s.take(i as int));
            assert(s.take(i as int + 1).last() == a@[i as int]);
        }
        v = v * base + a[i] as usize;
        i += 1;
    }
    v
}

/// The number that the digits `s` spell in base `base`, the first digit
/// counting most.
pub open spec fn digits_value(s: Seq<int>, base: int) -> int
    decreases s.len(),
{
    if s.len() == 0 {
        0
    } else {
        digits_value(s.drop_last(), base) * base + s.last()
    }
}

/// The last `len` digits of `v` in base `base`.
pub open spec fn digits_of(v: int, base: int, len: nat) -> Seq<int>
    decreases len,
{
    if len == 0 {
        Seq::empty()
    } else {
        digits_of(v / base, base, (len - 1) as nat).push(v % base)
    }
}

/// Every entry of `s` is a digit of base `base`.
pub open spec fn all_digits(s: Seq<int>, base: int) -> bool {
    forall|i: int| 0 <= i < s.len() ==> 0 <= #[trigger] s[i] < base
}

/// A number below `base` to the power `len` is spelt in full by its last
/// `len` digits.
pub proof fn lemma_digits_spell(v: int, base: int, len: nat)
    requires
        base >= 2,
        0 <= v < pow(base, len),
    ensures
        digits_of(v, base, len).len() == len,
        all_digits(digits_of(v, base, len), base),
        digits_value(digits_of(v, base, len), base) == v,
    decreases len,
{
    reveal(pow);
    if len > 0 {
        let p = pow(base, (len - 1) as nat);
        lemma_pow_positive(base, (len - 1) as nat);
        lemma_multiply_divide_lt(v, base, p);
        assert(0 <= v / base) by (nonlinear_arith)
            requires
                v >= 0,
                base >= 2,
        ;
        lemma_digits_spell(v / base, base, (len - 1) as nat);
        lemma_mod_pos_bound(v, base);
        lemma_fundamental_div_mod(v, base);
        let d = digits_of(v, base, len);
        assert(d.drop_last() =~= digits_of(v / base, base, (len - 1) as nat));
        assert((v / base) * base == base * (v / base)) by (nonlinear_arith);
    }
}

/// `len` digits have `len` entries, whatever the number.
pub proof fn lemma_digits_len(v: int, base: int, len: nat)
    ensures
        digits_of(v, base, len).len() == len,
    decreases len,
{
    if len > 0 {
        lemma_digits_len(v / base, base, (len - 1) as nat);
    }
}

/// Digits spell a number below `base` to the power of their count, and the
/// digits of that number are the same digits.
pub proof fn lemma_digits_read(s: Seq<int>, base: int)
    requires
        base >= 2,
        all_digits(s, base),
    ensures
        0 <= digits_value(s, base) < pow(base, s.len()),
        digits_of(digits_value(s, base), base, s.len()) == s,
    decreases s.len(),
{
    reveal(pow);
    if s.len() > 0 {
        let t = s.drop_last();
        assert(all_digits(t, base)) by {
            assert forall|i: int| 0 <= i < t.len() implies 0 <= #[trigger] t[i] < base by {
                assert(t[i] == s[i]);
            }
        }
        lemma_digits_read(t, base);
        let q = digits_value(t, base);
        let p = pow(base, t.len());
        let v = digits_value(s, base);
        assert(0 <= s.last() < base);
        assert(0 <= q * base + s.last() < base * p) by (nonlinear_arith)
            requires
                0 <= q < p,
                0 <= s.last() < base,
        ;
        lemma_fundamental_div_mod_converse(v, base, q, s.last());
        assert(digits_of(v, base, s.len()) =~= s);
    } else {
        assert(digits_of(0, base, 0) =~= s);
    }
}

/// The digits of a number in the factorial number system, the first digit
/// counting most: digit by digit, the number is divided by the factorial of
/// the number of digits that follow.
pub open spec fn factorial_digits_of(val: nat, len: nat) -> Seq<nat>
    decreases len,
{
    if len == 0 {
        Seq::empty()
    } else {
        seq![quotient(val, factorial((len - 1) as nat))].add(
            factorial_digits_of(remainder(val, factorial((len - 1) as nat)), (len - 1) as nat),
        )
    }
}

/// How often `d` goes into `a`.
#[verifier::opaque]
pub open spec fn quotient(a: nat, d: nat) -> nat {
    (a / d) as nat
}

/// What is left of `a` after taking out `d` as often as it goes.
#[verifier::opaque]
pub open spec fn remainder(a: nat, d: nat) -> nat {
    (a % d) as nat
}

/// The digits of a number in the factorial number system, one at a time.
pub struct FactorialDigits {
    val: usize,
    len: usize,
}

impl FactorialDigits {
    /// The number that is left to be written.
    pub closed spec fn val(&self) -> nat {
        self.val as nat
    }

    /// The number of digits that are left to be handed out.
    pub closed spec fn len(&self) -> nat {
        self.len as nat
    }

    /// The digits that are left to be handed out.
    pub open spec fn remaining(&self) -> Seq<nat> {
        factorial_digits_of(self.val(), self.len())
    }

    /// The next digit, or `None` after the last.
    pub fn next(&mut self) -> (digit: Option<usize>)
        requires
            old(self).len() <= 13,
        ensures
            old(self).len() == 0 ==> digit.is_none() && *final(self) == *old(self),
            old(self).len() > 0 ==> digit == Some(old(self).remaining()[0] as usize),
            old(self).len() > 0 ==> old(self).remaining()[0] <= usize::MAX,
            old(self).len() > 0 ==> final(self).len() == old(self).len() - 1,
            old(self).len() > 0 ==> final(self).val() == remainder(
                old(self).val(),
                factorial((old(self).len() - 1) as nat),
            ),
            old(self).len() > 0 ==> final(self).remaining() == old(self).remaining().drop_first(),
    {
        if self.len == 0 {
            None
        } else {
            let base = factorial_of(self.len - 1);
            let next = self.val / base;
            proof {
                reveal(quotient);
                reveal(remainder);
                let rest = factorial_digits_of(
                    remainder(self.val as nat, base as nat),
                    (self.len - 1) as nat,
                );
                let first = quotient(self.val as nat, base as nat);
                assert(seq![first].add(rest).drop_first() =~= rest);
                assert(seq![first].add(rest)[0] == first);
            }
            self.val = self.val % base;
            self.len = self.len - 1;
            Some(next)
        }
    }

    /// All the digits that are left.
    pub fn collect(self) -> (digits: Vec<usize>)
        requires
            self.len() <= 13,
        ensures
            digits@.len() == self.len(),
            forall|i: int| 0 <= i < digits@.len() ==> digits@[i] == self.remaining()[i],
    {
        let ghost all = self.remaining();
        let ghost total = self.len();
        let mut rest = self;
        let mut digits: Vec<usize> = Vec::new();
        proof {
            lemma_factorial_digits_len(self.val(), self.len());
        }
        loop
            invariant_except_break
                rest.len() <= 13,
                digits@.len() + rest.len() == total,
                all.len() == total,
                rest.remaining() == all.skip(digits@.len() as int),
                forall|i: int| 0 <= i < digits@.len() ==> digits@[i] == all[i],
            ensures
                digits@.len() == total,
                forall|i: int| 0 <= i < digits@.len() ==> digits@[i] == all[i],
            decreases rest.len(),
        {
            let ghost before = rest.remaining();
            match rest.next() {
                Some(d) => {
                    assert(before[0] == all[digits@.len() as int]);
                    assert(before.drop_first() =~= all.skip(digits@.len() as int + 1));
                    digits.push(d);
                },
                None => {
                    break ;
                },
            }
        }
        digits
    }
}

/// A number is written with as many digits as were asked for.
pub proof fn lemma_factorial_digits_len(val: nat, len: nat)
    ensures
        factorial_digits_of(val, len).len() == len,
    decreases len,
{
    if len > 0 {
        let base = factorial((len - 1) as nat);
        lemma_factorial_digits_len(remainder(val, base), (len - 1) as nat);
    }
}

/// The digits of `val` in the factorial number system, `len` of them.
pub fn factorial_digits(val: usize, len: usize) -> (digits: FactorialDigits)
    ensures
        digits.val() == val,
        digits.len() == len,
{
    FactorialDigits { val, len }
}

} // verus!
