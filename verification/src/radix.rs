//! Positional numerals in an arbitrary radix: the arithmetic that Base58
//! encoding and decoding are built on.
use vstd::prelude::*;

verus! {

/// `base` raised to the power `e`.
pub open spec fn power(base: nat, e: nat) -> nat
    decreases e,
{
    if e == 0 {
        1
    } else {
        base * power(base, (e - 1) as nat)
    }
}

/// The number written by the digits `d`, least significant digit first.
pub open spec fn le_value(d: Seq<u8>, base: nat) -> nat
    decreases d.len(),
{
    if d.len() == 0 {
        0
    } else {
        d[0] as nat + base * le_value(d.drop_first(), base)
    }
}

/// The number written by the digits `s`, most significant digit first.
pub open spec fn be_value(s: Seq<u8>, base: nat) -> nat
    decreases s.len(),
{
    if s.len() == 0 {
        0
    } else {
        be_value(s.drop_last(), base) * base + s.last() as nat
    }
}

/// Every digit of `d` is below `base`.
pub open spec fn digits_below(d: Seq<u8>, base: nat) -> bool {
    forall|i: int| 0 <= i < d.len() ==> (#[trigger] d[i] as nat) < base
}

/// A little-endian numeral with no zero in its most significant place.
pub open spec fn is_canonical(d: Seq<u8>) -> bool {
    d.len() == 0 || d.last() != 0
}

/// The shortest little-endian numeral for `n` (empty for zero).
pub open spec fn canonical_digits(n: nat, base: nat) -> Seq<u8>
    decreases n,
{
    if n == 0 || base < 2 {
        Seq::empty()
    } else {
        proof {
            lemma_div_smaller(n, base);
        }
        seq![(n % base) as u8] + canonical_digits(n / base, base)
    }
}

/// Number of leading elements of `s` equal to `x`.
pub open spec fn leading_run(s: Seq<u8>, x: u8) -> nat
    decreases s.len(),
{
    if s.len() == 0 || s[0] != x {
        0
    } else {
        1 + leading_run(s.drop_first(), x)
    }
}

/// The sequence of `n` copies of `x`.
pub open spec fn repeat(x: u8, n: nat) -> Seq<u8> {
    Seq::new(n, |i: int| x)
}

pub proof fn lemma_div_smaller(n: nat, base: nat)
    requires
        n > 0,
        base >= 2,
    ensures
        n / base < n,
{
    assert(n / base < n) by (nonlinear_arith)
        requires
            n > 0,
            base >= 2,
    ;
}

pub proof fn lemma_power_positive(base: nat, e: nat)
    requires
        base >= 1,
    ensures
        power(base, e) >= 1,
    decreases e,
{
    if e > 0 {
        lemma_power_positive(base, (e - 1) as nat);
        let p = power(base, (e - 1) as nat);
        assert(base * p >= 1) by (nonlinear_arith)
            requires
                base >= 1,
                p >= 1,
        ;
    }
}

/// Appending a most significant digit adds it at its place value.
pub proof fn lemma_le_value_push(d: Seq<u8>, x: u8, base: nat)
    ensures
        le_value(d.push(x), base) == le_value(d, base) + power(base, d.len()) * x,
    decreases d.len(),
{
    if d.len() == 0 {
        let e = Seq::<u8>::empty();
        assert(d.push(x).drop_first() =~= e);
        assert(le_value(e, base) == 0);
        assert(d.push(x)[0] == x);
        assert(le_value(d.push(x), base) == x as nat + base * le_value(e, base));
        assert(base * 0 == 0) by (nonlinear_arith);
        assert(power(base, 0) == 1);
        assert(le_value(d, base) == 0);
    } else {
        let df = d.drop_first();
        assert(d.push(x).drop_first() =~= df.push(x));
        lemma_le_value_push(df, x, base);
        let a = le_value(df, base);
        let p = power(base, df.len());
        assert(power(base, d.len()) == base * p);
        assert(base * (a + p * x) == base * a + (base * p) * x) by (nonlinear_arith);
    }
}

/// Dropping the most significant digit.
pub proof fn lemma_le_value_drop_last(d: Seq<u8>, base: nat)
    requires
        d.len() > 0,
    ensures
        le_value(d, base) == le_value(d.drop_last(), base) + power(base, (d.len() - 1) as nat)
            * d.last(),
{
    assert(d.drop_last().push(d.last()) =~= d);
    lemma_le_value_push(d.drop_last(), d.last(), base);
}

/// A numeral of `len` digits below `base` is below `base^len`.
pub proof fn lemma_le_value_bound(d: Seq<u8>, base: nat)
    requires
        digits_below(d, base),
    ensures
        le_value(d, base) < power(base, d.len()),
    decreases d.len(),
{
    if d.len() > 0 {
        let df = d.drop_first();
        assert(digits_below(df, base)) by {
            assert forall|i: int| 0 <= i < df.len() implies (#[trigger] df[i] as nat) < base by {
                assert(df[i] == d[i + 1]);
            }
        }
        lemma_le_value_bound(df, base);
        let a = le_value(df, base);
        let p = power(base, df.len());
        let d0 = d[0] as nat;
        assert(d0 < base);
        assert(d0 + base * a < base * p) by (nonlinear_arith)
            requires
                d0 < base,
                a < p,
        ;
    }
}

/// A canonical non-empty numeral is at least `base^(len-1)`.
pub proof fn lemma_le_value_lower(d: Seq<u8>, base: nat)
    requires
        d.len() > 0,
        d.last() != 0,
        base >= 1,
    ensures
        le_value(d, base) >= power(base, (d.len() - 1) as nat),
{
    lemma_le_value_drop_last(d, base);
    let p = power(base, (d.len() - 1) as nat);
    let l = d.last() as nat;
    assert(p * l >= p) by (nonlinear_arith)
        requires
            l >= 1,
    ;
}

/// Reading digits most significant first is reading the reversed
/// numeral least significant first.
pub proof fn lemma_be_value_reverse(d: Seq<u8>, base: nat)
    ensures
        be_value(d.reverse(), base) == le_value(d, base),
    decreases d.len(),
{
    if d.len() > 0 {
        let df = d.drop_first();
        let r = d.reverse();
        assert(r.drop_last() =~= df.reverse());
        assert(r.last() == d[0]);
        lemma_be_value_reverse(df, base);
        assert(be_value(r, base) == be_value(r.drop_last(), base) * base + r.last() as nat);
        assert(le_value(df, base) * base == base * le_value(df, base)) by (nonlinear_arith);
    }
}

/// The canonical numeral of `n` denotes `n`, uses only digits below the base
/// and has no most significant zero.
pub proof fn lemma_canonical_digits(n: nat, base: nat)
    requires
        2 <= base <= 256,
    ensures
        le_value(canonical_digits(n, base), base) == n,
        digits_below(canonical_digits(n, base), base),
        is_canonical(canonical_digits(n, base)),
    decreases n,
{
    let c = canonical_digits(n, base);
    if n > 0 {
        lemma_div_smaller(n, base);
        lemma_canonical_digits(n / base, base);
        let rest = canonical_digits(n / base, base);
        let r = n % base;
        assert(r < base) by (nonlinear_arith)
            requires
                base >= 2,
                r == n % base,
        ;
        assert(n == r + base * (n / base)) by (nonlinear_arith)
            requires
                base >= 2,
                r == n % base,
        ;
        assert(c =~= seq![r as u8] + rest);
        assert(c.drop_first() =~= rest);
        assert(c[0] == r as u8);
        assert(digits_below(c, base)) by {
            assert forall|i: int| 0 <= i < c.len() implies (#[trigger] c[i] as nat) < base by {
                if i > 0 {
                    assert(c[i] == rest[i - 1]);
                }
            }
        }
        if rest.len() == 0 {
            assert(n / base == 0) by {
                if n / base > 0 {
                    lemma_le_value_lower_nonempty_of_positive(n / base, base);
                }
            }
            assert(r == n);
            assert(c.last() == r as u8);
        } else {
            assert(c.last() == rest.last());
        }
    }
}

/// The canonical numeral of a positive number is non-empty.
pub proof fn lemma_le_value_lower_nonempty_of_positive(n: nat, base: nat)
    requires
        n > 0,
        2 <= base,
    ensures
        canonical_digits(n, base).len() > 0,
{
}

/// A canonical numeral is the canonical numeral of its value.
pub proof fn lemma_canonical_unique(d: Seq<u8>, base: nat)
    requires
        2 <= base <= 256,
        digits_below(d, base),
        is_canonical(d),
    ensures
        canonical_digits(le_value(d, base), base) == d,
    decreases d.len(),
{
    if d.len() > 0 {
        let n = le_value(d, base);
        lemma_le_value_lower(d, base);
        lemma_power_positive(base, (d.len() - 1) as nat);
        assert(n > 0);
        let df = d.drop_first();
        assert(digits_below(df, base)) by {
            assert forall|i: int| 0 <= i < df.len() implies (#[trigger] df[i] as nat) < base by {
                assert(df[i] == d[i + 1]);
            }
        }
        assert(is_canonical(df)) by {
            if df.len() > 0 {
                assert(df.last() == d.last());
            }
        }
        lemma_canonical_unique(df, base);
        let a = le_value(df, base);
        let d0 = d[0] as nat;
        assert(d0 < base);
        assert(n == d0 + base * a);
        assert(n % base == d0 && n / base == a) by (nonlinear_arith)
            requires
                n == d0 + base * a,
                d0 < base,
                base >= 2,
        ;
        let c = canonical_digits(n, base);
        assert(c == seq![(n % base) as u8] + canonical_digits(n / base, base));
        assert(c =~= d);
    }
}

/// Leading zeros do not change the value of a big-endian numeral.
pub proof fn lemma_be_value_leading_zeros(k: nat, t: Seq<u8>, base: nat)
    ensures
        be_value(repeat(0, k) + t, base) == be_value(t, base),
    decreases t.len(), k,
{
    if t.len() == 0 {
        assert(repeat(0, k) + t =~= repeat(0, k));
        if k > 0 {
            assert(repeat(0, k).drop_last() =~= repeat(0, (k - 1) as nat) + t);
            lemma_be_value_leading_zeros((k - 1) as nat, t, base);
            assert(be_value(repeat(0, (k - 1) as nat) + t, base) == 0);
            assert(repeat(0, k).last() == 0);
            assert(be_value(repeat(0, k), base) == be_value(repeat(0, k).drop_last(), base) * base
                + 0);
            assert(0 * base == 0) by (nonlinear_arith);
        }
    } else {
        let s = repeat(0, k) + t;
        assert(s.drop_last() =~= repeat(0, k) + t.drop_last());
        assert(s.last() == t.last());
        lemma_be_value_leading_zeros(k, t.drop_last(), base);
    }
}

/// `leading_run` is the length of the run of `x` at the front.
pub proof fn lemma_leading_run(s: Seq<u8>, x: u8, i: nat)
    requires
        i <= s.len(),
        forall|j: int| 0 <= j < i ==> s[j] == x,
        i == s.len() || s[i as int] != x,
    ensures
        leading_run(s, x) == i,
    decreases i,
{
    if i > 0 {
        let df = s.drop_first();
        assert forall|j: int| 0 <= j < (i - 1) as nat implies df[j] == x by {
            assert(s[j + 1] == x);
        }
        if (i - 1) as nat != df.len() {
            assert(df[(i - 1) as int] == s[i as int]);
        }
        lemma_leading_run(df, x, (i - 1) as nat);
    }
}

/// The run at the front has the claimed shape.
pub proof fn lemma_leading_run_shape(s: Seq<u8>, x: u8)
    ensures
        leading_run(s, x) <= s.len(),
        forall|j: int| 0 <= j < leading_run(s, x) ==> s[j] == x,
        leading_run(s, x) == s.len() || s[leading_run(s, x) as int] != x,
        s =~= repeat(x, leading_run(s, x)) + s.skip(leading_run(s, x) as int),
    decreases s.len(),
{
    if s.len() > 0 && s[0] == x {
        let df = s.drop_first();
        lemma_leading_run_shape(df, x);
        let z = leading_run(s, x);
        assert forall|j: int| 0 <= j < z implies s[j] == x by {
            if j > 0 {
                assert(s[j] == df[j - 1]);
            }
        }
        if z < s.len() {
            assert(s[z as int] == df[(z - 1) as int]);
        }
    }
}

/// Multiplies the little-endian numeral `digits` by `factor` and adds `add`,
/// in place and in radix `base`.
pub fn mul_add_digits(digits: &mut Vec<u8>, base: u32, factor: u32, add: u32)
    requires
        2 <= base <= 256,
        1 <= factor <= 256,
        add < 2 * factor,
        digits_below(old(digits)@, base as nat),
    ensures
        digits_below(final(digits)@, base as nat),
        le_value(final(digits)@, base as nat) == le_value(old(digits)@, base as nat) * factor
            + add,
        is_canonical(old(digits)@) ==> is_canonical(final(digits)@),
{
    let ghost b = base as nat;
    let ghost orig = digits@;
    let ghost target = le_value(orig, b) * factor + add;
    let len = digits.len();
    let mut carry: u32 = add;
    let mut j: usize = 0;
    assert(digits@.subrange(0, 0) =~= Seq::<u8>::empty());
    assert(orig.subrange(0, 0) =~= Seq::<u8>::empty());
    assert(le_value(Seq::<u8>::empty(), b) == 0);
    assert(power(b, 0) == 1);
    assert(0 * factor == 0) by (nonlinear_arith);
    while j < len
        invariant
            2 <= base <= 256,
            1 <= factor <= 256,
            len == digits@.len(),
            len == orig.len(),
            b == base as nat,
            j <= len,
            carry < 2 * factor,
            digits_below(orig, b),
            digits_below(digits@, b),
            forall|k: int| j <= k < len ==> digits@[k] == orig[k],
            le_value(digits@.subrange(0, j as int), b) + power(b, j as nat) * carry == le_value(
                orig.subrange(0, j as int),
                b,
            ) * factor + add,
        decreases len - j,
    {
        let ghost before = digits@;
        let ghost c0 = carry;
        let o = digits[j];
        assert(o == orig[j as int]);
        assert((o as nat) < b);
        assert((o as u32) * factor <= 255 * 256) by (nonlinear_arith)
            requires
                o < 256,
                factor <= 256,
        ;
        let c1: u32 = carry + (o as u32) * factor;
        assert(c1 < (b + 1) * factor) by (nonlinear_arith)
            requires
                c1 == c0 + o * factor,
                c0 < 2 * factor,
                o < b,
                b >= 2,
        ;
        let nd = (c1 % base) as u8;
        carry = c1 / base;
        assert(carry < 2 * factor) by (nonlinear_arith)
            requires
                carry == c1 / base,
                c1 < (base + 1) * factor,
                base >= 2,
                factor >= 1,
        ;
        digits.set(j, nd);
        proof {
            let p = power(b, j as nat);
            let newp = digits@.subrange(0, j as int);
            let oldp = orig.subrange(0, j as int);
            assert(digits@.subrange(0, j + 1) =~= before.subrange(0, j as int).push(nd));
            assert(before.subrange(0, j as int) =~= newp);
            assert(orig.subrange(0, j + 1) =~= oldp.push(o));
            lemma_le_value_push(newp, nd, b);
            lemma_le_value_push(oldp, o, b);
            assert(power(b, (j + 1) as nat) == b * p);
            assert((nd as nat) == c1 % base);
            assert(p * (c1 % base) + (b * p) * (c1 / base) == p * c1) by (nonlinear_arith)
                requires
                    b == base,
                    base >= 2,
            ;
            assert(p * c1 == p * c0 + (p * o) * factor) by (nonlinear_arith)
                requires
                    c1 == c0 + o * factor,
            ;
            let lo = le_value(oldp, b);
            assert((lo + p * o) * factor == lo * factor + (p * o) * factor) by (nonlinear_arith);
            assert(digits_below(digits@, b)) by {
                assert forall|k: int| 0 <= k < digits@.len() implies (#[trigger] digits@[k]
                    as nat) < b by {
                    if k != j {
                        assert(digits@[k] == before[k]);
                    } else {
                        assert(nd < base) by (nonlinear_arith)
                            requires
                                nd == c1 % base,
                                base >= 2,
                        ;
                    }
                }
            }
        }
        j = j + 1;
    }
    assert(digits@.subrange(0, len as int) =~= digits@);
    assert(orig.subrange(0, len as int) =~= orig);
    let ghost after_inner = digits@;
    let ghost carry_inner = carry;
    proof {
        if is_canonical(orig) && len > 0 && carry == 0 {
            // no digit is pushed: the top digit cannot have become zero
            let nv = le_value(after_inner, b);
            lemma_le_value_lower(orig, b);
            lemma_power_positive(b, (len - 1) as nat);
            assert(nv >= le_value(orig, b)) by (nonlinear_arith)
                requires
                    nv == le_value(orig, b) * factor + add,
                    factor >= 1,
            ;
            lemma_le_value_drop_last(after_inner, b);
            let front = after_inner.drop_last();
            assert(digits_below(front, b)) by {
                assert forall|k: int| 0 <= k < front.len() implies (#[trigger] front[k]
                    as nat) < b by {
                    assert(front[k] == after_inner[k]);
                }
            }
            lemma_le_value_bound(front, b);
            assert(front.len() == (len - 1) as nat);
            if after_inner.last() == 0 {
                assert(power(b, (len - 1) as nat) * after_inner.last() == 0) by (nonlinear_arith)
                    requires
                        after_inner.last() == 0,
                ;
            }
        }
    }
    while carry > 0
        invariant
            2 <= base <= 256,
            b == base as nat,
            digits.len() >= len,
            digits_below(digits@, b),
            le_value(digits@, b) + power(b, digits.len() as nat) * carry == target,
            digits.len() > len ==> (carry > 0 || digits@.last() != 0),
            carry_inner > 0 ==> (digits.len() > len || carry > 0),
            digits.len() == len ==> digits@ == after_inner,
        decreases carry,
    {
        let ghost before = digits@;
        let ghost c0 = carry;
        let nd = (carry % base) as u8;
        carry = carry / base;
        digits.push(nd);
        proof {
            let p = power(b, before.len());
            lemma_le_value_push(before, nd, b);
            assert(power(b, digits@.len() as nat) == b * p);
            assert(p * (c0 % base) + (b * p) * (c0 / base) == p * c0) by (nonlinear_arith)
                requires
                    b == base,
                    base >= 2,
            ;
            assert(nd < base) by (nonlinear_arith)
                requires
                    nd == c0 % base,
                    base >= 2,
            ;
            assert(digits_below(digits@, b)) by {
                assert forall|k: int| 0 <= k < digits@.len() implies (#[trigger] digits@[k]
                    as nat) < b by {
                    if k < before.len() {
                        assert(digits@[k] == before[k]);
                    }
                }
            }
            if carry == 0 {
                assert(c0 < base) by (nonlinear_arith)
                    requires
                        c0 / base == 0,
                        base >= 2,
                ;
                assert(nd == c0) by (nonlinear_arith)
                    requires
                        c0 < base,
                        nd == c0 % base,
                ;
            }
            assert(carry < c0) by (nonlinear_arith)
                requires
                    carry == c0 / base,
                    c0 > 0,
                    base >= 2,
            ;
        }
    }
    proof {
        assert(power(b, digits.len() as nat) * carry == 0) by (nonlinear_arith)
            requires
                carry == 0,
        ;
    }
}

} // verus!
