//! Unsigned arbitrary-precision naturals as base-10 digit vectors.
//!
//! A number is a `Vec<u8>` of decimal digits, least significant first; the
//! empty vector is zero. A vector is normalized when its most significant
//! digit (the last element) is nonzero, so every natural has exactly one
//! normalized representation.

use vstd::prelude::*;
use vstd::arithmetic::div_mod::lemma_fundamental_div_mod_converse;

verus! {

/// 10 raised to `e`.
pub open spec fn pow10(e: nat) -> nat
    decreases e,
{
    if e == 0 {
        1
    } else {
        10 * pow10((e - 1) as nat)
    }
}

pub proof fn lemma_pow10_pos(e: nat)
    ensures
        pow10(e) >= 1,
    decreases e,
{
    if e > 0 {
        lemma_pow10_pos((e - 1) as nat);
    }
}

pub proof fn lemma_pow10_adds(a: nat, b: nat)
    ensures
        pow10(a + b) == pow10(a) * pow10(b),
    decreases a,
{
    if a == 0 {
        assert(pow10(a) == 1);
        assert(pow10(a + b) == pow10(b));
        assert(pow10(a + b) == pow10(a) * pow10(b)) by (nonlinear_arith)
            requires
                pow10(a) == 1,
                pow10(a + b) == pow10(b),
        ;
    } else {
        lemma_pow10_adds((a - 1) as nat, b);
        assert(pow10(a + b) == 10 * (pow10((a - 1) as nat) * pow10(b)));
        assert(10 * (pow10((a - 1) as nat) * pow10(b)) == (10 * pow10((a - 1) as nat)) * pow10(b))
            by (nonlinear_arith);
        assert(pow10(a) == 10 * pow10((a - 1) as nat));
        assert((a - 1) as nat + b == (a + b - 1) as nat);
        assert(pow10((a - 1) as nat + b) == pow10((a - 1) as nat) * pow10(b));
        assert(pow10(a + b) == 10 * pow10((a + b - 1) as nat));
        assert(pow10(a + b) == pow10(a) * pow10(b));
    }
}

pub proof fn lemma_pow10_increases(a: nat, b: nat)
    ensures
        a <= b ==> pow10(a) <= pow10(b),
    decreases b,
{
    if a < b && b > 0 {
        lemma_pow10_increases(a, (b - 1) as nat);
        lemma_pow10_pos((b - 1) as nat);
    }
}

/// The natural number denoted by a little-endian digit sequence.
pub open spec fn val(s: Seq<u8>) -> nat
    decreases s.len(),
{
    if s.len() == 0 {
        0
    } else {
        s[0] as nat + 10 * val(s.skip(1))
    }
}

/// Every element is a decimal digit.
pub open spec fn digits_wf(s: Seq<u8>) -> bool {
    forall|i: int| 0 <= i < s.len() ==> s[i] < 10
}

/// Well formed and without leading zeros (in number order).
pub open spec fn digits_norm(s: Seq<u8>) -> bool {
    &&& digits_wf(s)
    &&& s.len() > 0 ==> s[s.len() - 1] != 0
}

pub proof fn lemma_val_snoc(s: Seq<u8>, d: u8)
    ensures
        val(s.push(d)) == val(s) + (d as nat) * pow10(s.len()),
    decreases s.len(),
{
    if s.len() == 0 {
        assert(s.push(d).skip(1) =~= Seq::<u8>::empty());
        assert(pow10(s.len()) == 1);
        assert(val(s.push(d)) == d as nat + 10 * val(s.push(d).skip(1)));
        assert((d as nat) * 1 == d as nat) by (nonlinear_arith);
    } else {
        assert(s.push(d).skip(1) =~= s.skip(1).push(d));
        lemma_val_snoc(s.skip(1), d);
        assert(val(s.push(d)) == s[0] as nat + 10 * (val(s.skip(1)) + (d as nat) * pow10(
            (s.len() - 1) as nat,
        )));
        assert(10 * (val(s.skip(1)) + (d as nat) * pow10((s.len() - 1) as nat)) == 10 * val(
            s.skip(1),
        ) + (d as nat) * (10 * pow10((s.len() - 1) as nat))) by (nonlinear_arith);
        assert(pow10(s.len()) == 10 * pow10((s.len() - 1) as nat));
        assert(val(s) == s[0] as nat + 10 * val(s.skip(1)));
    }
}

/// The digit at position `i`, reading zeros past the end.
pub open spec fn dig_at(s: Seq<u8>, i: int) -> u8 {
    if 0 <= i < s.len() {
        s[i]
    } else {
        0
    }
}

/// The value of the first `i` digits (all of them once `i` passes the end).
pub open spec fn val_upto(s: Seq<u8>, i: int) -> nat {
    if i <= s.len() {
        val(s.take(i))
    } else {
        val(s)
    }
}

pub proof fn lemma_val_take_step(s: Seq<u8>, i: int)
    requires
        0 <= i < s.len(),
    ensures
        val(s.take(i + 1)) == val(s.take(i)) + (s[i] as nat) * pow10(i as nat),
{
    assert(s.take(i + 1) =~= s.take(i).push(s[i]));
    lemma_val_snoc(s.take(i), s[i]);
}

pub proof fn lemma_val_upto_step(s: Seq<u8>, i: int)
    requires
        0 <= i,
    ensures
        val_upto(s, i + 1) == val_upto(s, i) + (dig_at(s, i) as nat) * pow10(i as nat),
{
    if i < s.len() {
        lemma_val_take_step(s, i);
    } else {
        assert(dig_at(s, i) == 0);
        if i == s.len() {
            assert(s.take(i) =~= s);
        }
    }
}

pub proof fn lemma_val_upto_all(s: Seq<u8>, i: int)
    requires
        i >= s.len(),
    ensures
        val_upto(s, i) == val(s),
{
    if i == s.len() {
        assert(s.take(i) =~= s);
    }
}

pub proof fn lemma_val_skip_step(s: Seq<u8>, i: int)
    requires
        0 <= i < s.len(),
    ensures
        val(s.skip(i)) == s[i] as nat + 10 * val(s.skip(i + 1)),
{
    assert(s.skip(i).len() > 0);
    assert(s.skip(i)[0] == s[i]);
    assert(s.skip(i).skip(1) =~= s.skip(i + 1));
}

pub proof fn lemma_val_bound(s: Seq<u8>)
    requires
        digits_wf(s),
    ensures
        val(s) < pow10(s.len()),
    decreases s.len(),
{
    if s.len() == 0 {
        assert(pow10(0) == 1);
    } else {
        assert(digits_wf(s.skip(1)));
        lemma_val_bound(s.skip(1));
        assert(pow10(s.len()) == 10 * pow10((s.len() - 1) as nat));
        assert(s[0] < 10);
    }
}

pub proof fn lemma_val_lower(s: Seq<u8>)
    requires
        digits_wf(s),
        s.len() > 0,
        s[s.len() - 1] != 0,
    ensures
        val(s) >= pow10((s.len() - 1) as nat),
    decreases s.len(),
{
    if s.len() == 1 {
        assert(pow10(0) == 1);
        assert(val(s) == s[0] as nat + 10 * val(s.skip(1)));
    } else {
        assert(digits_wf(s.skip(1)));
        assert(s.skip(1)[s.skip(1).len() - 1] == s[s.len() - 1]);
        lemma_val_lower(s.skip(1));
        assert(pow10((s.len() - 1) as nat) == 10 * pow10((s.len() - 2) as nat));
    }
}

pub proof fn lemma_val_decompose(s: Seq<u8>, i: int)
    requires
        0 <= i <= s.len(),
    ensures
        val(s) == val(s.take(i)) + pow10(i as nat) * val(s.skip(i)),
    decreases i,
{
    if i == 0 {
        assert(s.take(0) =~= Seq::<u8>::empty());
        assert(s.skip(0) =~= s);
        assert(pow10(0) == 1);
    } else {
        assert(s.len() > 0);
        assert(s.take(i).len() > 0);
        assert(s.take(i)[0] == s[0]);
        assert(s.take(i).skip(1) =~= s.skip(1).take(i - 1));
        assert(s.skip(i) =~= s.skip(1).skip(i - 1));
        lemma_val_decompose(s.skip(1), i - 1);
        assert(val(s) == s[0] as nat + 10 * val(s.skip(1)));
        assert(val(s.take(i)) == s[0] as nat + 10 * val(s.skip(1).take(i - 1)));
        assert(10 * (val(s.skip(1).take(i - 1)) + pow10((i - 1) as nat) * val(s.skip(i))) == 10
            * val(s.skip(1).take(i - 1)) + (10 * pow10((i - 1) as nat)) * val(s.skip(i)))
            by (nonlinear_arith);
        assert(pow10(i as nat) == 10 * pow10((i - 1) as nat));
    }
}

pub proof fn lemma_val_prepend_zeros(k: nat, s: Seq<u8>)
    ensures
        val(Seq::new(k, |i: int| 0u8) + s) == pow10(k) * val(s),
    decreases k,
{
    let z = Seq::new(k, |i: int| 0u8);
    if k == 0 {
        assert(z + s =~= s);
        assert(pow10(0) == 1);
    } else {
        let z1 = Seq::new((k - 1) as nat, |i: int| 0u8);
        assert((z + s).len() > 0);
        assert((z + s)[0] == 0);
        assert((z + s).skip(1) =~= z1 + s);
        lemma_val_prepend_zeros((k - 1) as nat, s);
        assert(val(z + s) == 0 + 10 * val(z1 + s));
        assert(10 * (pow10((k - 1) as nat) * val(s)) == (10 * pow10((k - 1) as nat)) * val(s))
            by (nonlinear_arith);
        assert(pow10(k) == 10 * pow10((k - 1) as nat));
    }
}

/// Drop leading zeros (the high end of the vector) so the number is normalized.
pub fn dig_norm(v: &mut Vec<u8>)
    requires
        digits_wf(old(v)@),
    ensures
        digits_norm(final(v)@),
        val(final(v)@) == val(old(v)@),
{
    while v.len() > 0 && v[v.len() - 1] == 0
        invariant
            digits_wf(v@),
            val(v@) == val(old(v)@),
        decreases v.len(),
    {
        proof {
            let s = v@;
            assert(s =~= s.drop_last().push(s[s.len() - 1]));
            lemma_val_snoc(s.drop_last(), s[s.len() - 1]);
        }
        let _ = v.pop();
    }
}

/// Sum of two digit vectors.
pub fn dig_add(a: &Vec<u8>, b: &Vec<u8>) -> (r: Vec<u8>)
    requires
        digits_wf(a@),
        digits_wf(b@),
    ensures
        digits_norm(r@),
        val(r@) == val(a@) + val(b@),
{
    let mut r: Vec<u8> = Vec::new();
    let mut carry: u8 = 0;
    let mut i: usize = 0;
    let n = if a.len() > b.len() {
        a.len()
    } else {
        b.len()
    };
    while i < n
        invariant
            i <= n,
            n >= a@.len() && n >= b@.len(),
            digits_wf(a@),
            digits_wf(b@),
            carry <= 1,
            digits_wf(r@),
            r@.len() == i,
            val(r@) + (carry as nat) * pow10(i as nat) == val_upto(a@, i as int) + val_upto(
                b@,
                i as int,
            ),
        decreases n - i,
    {
        let da = if i < a.len() {
            a[i]
        } else {
            0
        };
        let db = if i < b.len() {
            b[i]
        } else {
            0
        };
        let sum = da + db + carry;
        let d = sum % 10;
        let c2 = sum / 10;
        proof {
            lemma_val_snoc(r@, d);
            lemma_val_upto_step(a@, i as int);
            lemma_val_upto_step(b@, i as int);
            assert(da == dig_at(a@, i as int));
            assert(db == dig_at(b@, i as int));
            assert(sum == d + 10 * c2);
            assert(pow10((i + 1) as nat) == 10 * pow10(i as nat));
            assert((c2 as nat) * (10 * pow10(i as nat)) == 10 * ((c2 as nat) * pow10(i as nat)))
                by (nonlinear_arith);
            assert(((d + 10 * c2) as nat) * pow10(i as nat) == (d as nat) * pow10(i as nat) + 10 * (
            (c2 as nat) * pow10(i as nat))) by (nonlinear_arith);
            assert((sum as nat) * pow10(i as nat) == (da as nat) * pow10(i as nat) + (db as nat)
                * pow10(i as nat) + (carry as nat) * pow10(i as nat)) by (nonlinear_arith)
                requires
                    sum == da + db + carry,
            ;
        }
        r.push(d);
        carry = c2;
        i += 1;
    }
    if carry > 0 {
        proof {
            lemma_val_snoc(r@, carry);
        }
        r.push(carry);
    }
    proof {
        lemma_val_upto_all(a@, n as int);
        lemma_val_upto_all(b@, n as int);
    }
    dig_norm(&mut r);
    r
}

/// Three-way comparison of two normalized digit vectors.
pub fn dig_cmp(a: &Vec<u8>, b: &Vec<u8>) -> (r: i8)
    requires
        digits_norm(a@),
        digits_norm(b@),
    ensures
        r == 1 <==> val(a@) > val(b@),
        r == -1 <==> val(a@) < val(b@),
        r == 0 <==> val(a@) == val(b@),
{
    if a.len() < b.len() {
        proof {
            lemma_val_bound(a@);
            lemma_pow10_increases(a@.len(), (b@.len() - 1) as nat);
            lemma_val_lower(b@);
        }
        return -1;
    }
    if a.len() > b.len() {
        proof {
            lemma_val_bound(b@);
            lemma_pow10_increases(b@.len(), (a@.len() - 1) as nat);
            lemma_val_lower(a@);
        }
        return 1;
    }
    let mut i: usize = a.len();
    while i > 0
        invariant
            i <= a@.len(),
            a@.len() == b@.len(),
            digits_norm(a@),
            digits_norm(b@),
            forall|m: int| i <= m < a@.len() ==> a@[m] == b@[m],
        decreases i,
    {
        i = i - 1;
        if a[i] > b[i] {
            proof {
                assert(a@.skip(i as int + 1) =~= b@.skip(i as int + 1));
                lemma_cmp_digit_decides(a@, b@, i as int);
            }
            return 1;
        }
        if a[i] < b[i] {
            proof {
                assert(b@.skip(i as int + 1) =~= a@.skip(i as int + 1));
                lemma_cmp_digit_decides(b@, a@, i as int);
            }
            return -1;
        }
    }
    proof {
        assert(a@ =~= b@);
    }
    0
}

/// If the digit sequences agree above position `i` and `a` has the larger
/// digit there, then `a` denotes the larger number.
proof fn lemma_cmp_digit_decides(a: Seq<u8>, b: Seq<u8>, i: int)
    requires
        digits_wf(a),
        digits_wf(b),
        a.len() == b.len(),
        0 <= i < a.len(),
        a.skip(i + 1) == b.skip(i + 1),
        a[i] > b[i],
    ensures
        val(a) > val(b),
{
    lemma_val_take_step(a, i);
    lemma_val_take_step(b, i);
    lemma_val_decompose(a, i + 1);
    lemma_val_decompose(b, i + 1);
    assert(digits_wf(b.take(i)));
    lemma_val_bound(b.take(i));
    assert(digits_wf(a.take(i)));
    assert((a[i] as nat) * pow10(i as nat) >= (b[i] as nat) * pow10(i as nat) + pow10(i as nat))
        by (nonlinear_arith)
        requires
            a[i] >= b[i] + 1,
            pow10(i as nat) >= 0,
    ;
    assert(val(a.take(i + 1)) > val(b.take(i + 1)));
}

/// Difference of two digit vectors; the second must not exceed the first.
pub fn dig_sub(a: &Vec<u8>, b: &Vec<u8>) -> (r: Vec<u8>)
    requires
        digits_norm(a@),
        digits_norm(b@),
        val(b@) <= val(a@),
    ensures
        digits_norm(r@),
        val(r@) == val(a@) - val(b@),
{
    proof {
        if b@.len() > a@.len() {
            lemma_val_bound(a@);
            lemma_pow10_increases(a@.len(), (b@.len() - 1) as nat);
            lemma_val_lower(b@);
        }
    }
    let mut r: Vec<u8> = Vec::new();
    let mut borrow: u8 = 0;
    let mut i: usize = 0;
    while i < a.len()
        invariant
            i <= a@.len(),
            b@.len() <= a@.len(),
            digits_wf(a@),
            digits_wf(b@),
            borrow <= 1,
            digits_wf(r@),
            r@.len() == i,
            val(r@) as int == val_upto(a@, i as int) - val_upto(b@, i as int) + (borrow as int)
                * pow10(i as nat),
        decreases a@.len() - i,
    {
        let da = a[i];
        let db = if i < b.len() {
            b[i]
        } else {
            0
        };
        let d: u8;
        let borrow2: u8;
        if da >= db + borrow {
            d = da - db - borrow;
            borrow2 = 0;
        } else {
            d = da + 10 - db - borrow;
            borrow2 = 1;
        }
        proof {
            lemma_val_snoc(r@, d);
            lemma_val_upto_step(a@, i as int);
            lemma_val_upto_step(b@, i as int);
            assert(da == dig_at(a@, i as int));
            assert(db == dig_at(b@, i as int));
            assert(d + db + borrow == da + 10 * borrow2);
            assert(((da + 10 * borrow2) as int) * pow10(i as nat) == (da as int) * pow10(i as nat)
                + (borrow2 as int) * (10 * pow10(i as nat))) by (nonlinear_arith);
            assert(((d + db + borrow) as int) * pow10(i as nat) == (d as int) * pow10(i as nat) + (
            db as int) * pow10(i as nat) + (borrow as int) * pow10(i as nat)) by (nonlinear_arith);
            assert(pow10((i + 1) as nat) == 10 * pow10(i as nat));
            assert((borrow2 as int) * (10 * pow10(i as nat)) == (borrow2 as int) * pow10(
                (i + 1) as nat,
            ));
        }
        r.push(d);
        borrow = borrow2;
        i += 1;
    }
    proof {
        lemma_val_upto_all(a@, a@.len() as int);
        lemma_val_upto_all(b@, a@.len() as int);
        if borrow != 0 {
            lemma_val_bound(r@);
            lemma_val_lower(a@);
            assert(false);
        }
    }
    dig_norm(&mut r);
    r
}

/// Multiply by ten to the `k`: prepend `k` zero digits.
pub fn dig_shift(a: &Vec<u8>, k: usize) -> (r: Vec<u8>)
    requires
        digits_norm(a@),
    ensures
        digits_norm(r@),
        val(r@) == val(a@) * pow10(k as nat),
{
    let mut r: Vec<u8> = Vec::new();
    if a.len() == 0 {
        proof {
            assert(val(a@) * pow10(k as nat) == 0) by (nonlinear_arith)
                requires
                    val(a@) == 0,
            ;
        }
        return r;
    }
    let mut j: usize = 0;
    while j < k
        invariant
            j <= k,
            r@.len() == j,
            forall|m: int| 0 <= m < j ==> r@[m] == 0,
        decreases k - j,
    {
        r.push(0);
        j += 1;
    }
    let mut i: usize = 0;
    while i < a.len()
        invariant
            i <= a@.len(),
            r@.len() == k + i,
            forall|m: int| 0 <= m < k ==> r@[m] == 0,
            forall|m: int| k <= m < k + i ==> r@[m] == a@[m - k],
        decreases a@.len() - i,
    {
        r.push(a[i]);
        i += 1;
    }
    proof {
        assert(r@ =~= Seq::new(k as nat, |m: int| 0u8) + a@);
        lemma_val_prepend_zeros(k as nat, a@);
        assert(pow10(k as nat) * val(a@) == val(a@) * pow10(k as nat)) by (nonlinear_arith);
        assert(r@[r@.len() - 1] == a@[a@.len() - 1]);
    }
    r
}

/// Product of a digit vector and a single digit.
pub fn dig_mul_digit(a: &Vec<u8>, d: u8) -> (r: Vec<u8>)
    requires
        digits_wf(a@),
        d < 10,
    ensures
        digits_norm(r@),
        val(r@) == val(a@) * d,
{
    let mut r: Vec<u8> = Vec::new();
    let mut carry: u8 = 0;
    let mut i: usize = 0;
    proof {
        assert(a@.take(0) =~= Seq::<u8>::empty());
        assert(val(a@.take(0)) * d == 0) by (nonlinear_arith)
            requires
                val(a@.take(0)) == 0,
        ;
    }
    while i < a.len()
        invariant
            i <= a@.len(),
            digits_wf(a@),
            d < 10,
            carry <= 8,
            digits_wf(r@),
            r@.len() == i,
            val(r@) + (carry as nat) * pow10(i as nat) == val(a@.take(i as int)) * d,
        decreases a@.len() - i,
    {
        let ai = a[i];
        proof {
            assert(ai * d + carry <= 89) by (nonlinear_arith)
                requires
                    ai < 10,
                    d < 10,
                    carry <= 8,
            ;
        }
        let s = ai * d + carry;
        let dd = s % 10;
        let c2 = s / 10;
        proof {
            lemma_val_snoc(r@, dd);
            lemma_val_take_step(a@, i as int);
            assert(s == dd + 10 * c2);
            assert(pow10((i + 1) as nat) == 10 * pow10(i as nat));
            assert((val(a@.take(i as int)) + (a@[i as int] as nat) * pow10(i as nat)) * d == val(
                a@.take(i as int),
            ) * d + ((a@[i as int] * d) as nat) * pow10(i as nat)) by (nonlinear_arith);
            assert(((dd + 10 * c2) as nat) * pow10(i as nat) == (dd as nat) * pow10(i as nat) + (
            c2 as nat) * (10 * pow10(i as nat))) by (nonlinear_arith);
            assert(((a@[i as int] * d + carry) as nat) * pow10(i as nat) == ((a@[i as int]
                * d) as nat) * pow10(i as nat) + (carry as nat) * pow10(i as nat))
                by (nonlinear_arith);
        }
        r.push(dd);
        carry = c2;
        i += 1;
    }
    if carry > 0 {
        proof {
            lemma_val_snoc(r@, carry);
        }
        r.push(carry);
    }
    proof {
        assert(a@.take(a@.len() as int) =~= a@);
    }
    dig_norm(&mut r);
    r
}

/// Product of two digit vectors.
pub fn dig_mul(a: &Vec<u8>, b: &Vec<u8>) -> (r: Vec<u8>)
    requires
        digits_wf(a@),
        digits_wf(b@),
    ensures
        digits_norm(r@),
        val(r@) == val(a@) * val(b@),
{
    let mut acc: Vec<u8> = Vec::new();
    let mut i: usize = 0;
    proof {
        assert(b@.take(0) =~= Seq::<u8>::empty());
        assert(val(a@) * val(b@.take(0)) == 0) by (nonlinear_arith)
            requires
                val(b@.take(0)) == 0,
        ;
    }
    while i < b.len()
        invariant
            i <= b@.len(),
            digits_wf(a@),
            digits_wf(b@),
            digits_norm(acc@),
            val(acc@) == val(a@) * val(b@.take(i as int)),
        decreases b@.len() - i,
    {
        let t = dig_mul_digit(a, b[i]);
        let ts = dig_shift(&t, i);
        proof {
            lemma_val_take_step(b@, i as int);
            assert((val(a@) * b@[i as int]) * pow10(i as nat) == val(a@) * ((b@[i as int] as nat)
                * pow10(i as nat))) by (nonlinear_arith);
            assert(val(a@) * (val(b@.take(i as int)) + (b@[i as int] as nat) * pow10(i as nat))
                == val(a@) * val(b@.take(i as int)) + val(a@) * ((b@[i as int] as nat) * pow10(
                i as nat,
            ))) by (nonlinear_arith);
        }
        acc = dig_add(&acc, &ts);
        i += 1;
    }
    proof {
        assert(b@.take(b@.len() as int) =~= b@);
    }
    acc
}

/// Long division: the quotient of two digit vectors, rounded toward zero.
pub fn dig_div(a: &Vec<u8>, b: &Vec<u8>) -> (q: Vec<u8>)
    requires
        digits_norm(a@),
        digits_norm(b@),
        val(b@) > 0,
    ensures
        digits_norm(q@),
        val(q@) == val(a@) / val(b@),
{
    let mut q: Vec<u8> = Vec::new();
    let mut rem: Vec<u8> = Vec::new();
    let mut i: usize = a.len();
    while i > 0
        invariant
            i <= a@.len(),
            digits_norm(a@),
            digits_norm(b@),
            val(b@) > 0,
            digits_norm(rem@),
            digits_wf(q@),
            val(rem@) < val(b@),
            val(a@.skip(i as int)) == val(q@) * val(b@) + val(rem@),
        decreases i,
    {
        i = i - 1;
        let mut rem2 = dig_shift(&rem, 1);
        proof {
            assert(pow10(1) == 10 * pow10(0));
            assert(val(rem2@) == 10 * val(rem@)) by (nonlinear_arith)
                requires
                    val(rem2@) == val(rem@) * pow10(1),
                    pow10(1) == 10,
            ;
        }
        if a[i] > 0 {
            let mut dv: Vec<u8> = Vec::new();
            dv.push(a[i]);
            proof {
                assert(dv@ =~= Seq::<u8>::empty().push(a@[i as int]));
                lemma_val_snoc(Seq::<u8>::empty(), a@[i as int]);
                assert(pow10(0) == 1);
                assert((a@[i as int] as nat) * 1 == a@[i as int] as nat) by (nonlinear_arith);
                assert(val(dv@) == a@[i as int] as nat);
            }
            let ghost rv = val(rem2@);
            rem2 = dig_add(&rem2, &dv);
            proof {
                assert(val(rem2@) == rv + a@[i as int]);
            }
        }
        proof {
            assert(val(rem2@) == 10 * val(rem@) + a@[i as int]);
            assert(10 * val(rem@) + a@[i as int] < 10 * val(b@)) by (nonlinear_arith)
                requires
                    val(rem@) < val(b@),
                    a@[i as int] < 10,
            ;
        }
        let ghost r0 = val(rem2@);
        let mut qd: u8 = 0;
        let mut c = dig_cmp(&rem2, b);
        while c >= 0
            invariant
                digits_norm(rem2@),
                digits_norm(b@),
                val(b@) > 0,
                (qd as nat) * val(b@) + val(rem2@) == r0,
                r0 < 10 * val(b@),
                qd <= 9,
                c >= 0 <==> val(rem2@) >= val(b@),
                c <= 0 <==> val(rem2@) <= val(b@),
            decreases val(rem2@),
        {
            proof {
                assert(qd < 9) by (nonlinear_arith)
                    requires
                        (qd as nat) * val(b@) + val(rem2@) == r0,
                        r0 < 10 * val(b@),
                        val(rem2@) >= val(b@),
                        val(b@) > 0,
                ;
                assert(((qd + 1) as nat) * val(b@) == (qd as nat) * val(b@) + val(b@))
                    by (nonlinear_arith);
            }
            rem2 = dig_sub(&rem2, b);
            qd = qd + 1;
            c = dig_cmp(&rem2, b);
        }
        let ghost qsnap = q@;
        q.insert(0, qd);
        proof {
            assert(q@[0] == qd);
            assert(q@.skip(1) =~= qsnap);
        }
        proof {
            let qold = q@.skip(1);
            assert(val(q@) == qd as nat + 10 * val(qold));
            lemma_val_skip_step(a@, i as int);
            assert(10 * (val(qold) * val(b@)) == (10 * val(qold)) * val(b@)) by (nonlinear_arith);
            assert((qd as nat + 10 * val(qold)) * val(b@) == (qd as nat) * val(b@) + (10 * val(
                qold,
            )) * val(b@)) by (nonlinear_arith);
        }
        rem = rem2;
    }
    proof {
        assert(a@.skip(0) =~= a@);
        lemma_fundamental_div_mod_converse(
            val(a@) as int,
            val(b@) as int,
            val(q@) as int,
            val(rem@) as int,
        );
    }
    dig_norm(&mut q);
    q
}

/// Digit vector of a `u128`.
pub fn dig_from_u128(v: u128) -> (r: Vec<u8>)
    ensures
        digits_norm(r@),
        val(r@) == v as nat,
{
    let mut r: Vec<u8> = Vec::new();
    let mut x = v;
    proof {
        assert(pow10(0) == 1);
        assert((v as nat) * 1 == v as nat) by (nonlinear_arith);
    }
    while x > 0
        invariant
            digits_wf(r@),
            val(r@) + (x as nat) * pow10(r@.len()) == v as nat,
        decreases x,
    {
        let d = (x % 10) as u8;
        proof {
            lemma_val_snoc(r@, d);
            assert(x == 10 * (x / 10) + x % 10);
            assert(pow10((r@.len() + 1) as nat) == 10 * pow10(r@.len()));
            assert((x as nat) * pow10(r@.len()) == (d as nat) * pow10(r@.len()) + ((x
                / 10) as nat) * (10 * pow10(r@.len()))) by (nonlinear_arith)
                requires
                    x == 10 * (x / 10) + d,
                    x >= 0,
            ;
        }
        r.push(d);
        x = x / 10;
    }
    dig_norm(&mut r);
    r
}

/// The `u128` denoted by a digit vector, if it fits.
pub fn dig_to_u128(a: &Vec<u8>) -> (r: Option<u128>)
    requires
        digits_norm(a@),
    ensures
        val(a@) > u128::MAX ==> r is None,
        val(a@) <= u128::MAX ==> r == Some(val(a@) as u128),
{
    let mx = dig_from_u128(u128::MAX);
    let c = dig_cmp(a, &mx);
    if c > 0 {
        return None;
    }
    let mut acc: u128 = 0;
    let mut i: usize = a.len();
    proof {
        assert(a@.skip(a@.len() as int) =~= Seq::<u8>::empty());
    }
    while i > 0
        invariant
            i <= a@.len(),
            digits_norm(a@),
            val(a@) <= u128::MAX,
            acc as nat == val(a@.skip(i as int)),
        decreases i,
    {
        i = i - 1;
        proof {
            lemma_val_skip_step(a@, i as int);
            lemma_val_decompose(a@, i as int);
            lemma_pow10_pos(i as nat);
            assert(pow10(i as nat) * val(a@.skip(i as int)) >= val(a@.skip(i as int)))
                by (nonlinear_arith)
                requires
                    pow10(i as nat) >= 1,
            ;
        }
        acc = acc * 10 + (a[i] as u128);
    }
    proof {
        assert(a@.skip(0) =~= a@);
    }
    Some(acc)
}

} // verus!
