//! Checked unsigned decimal numbers of arbitrary precision.
//!
//! A [`Decimal`] is a digit vector `mant` and a `scale`, denoting the
//! rational `mant / 10^scale`. Every operation is checked: it reports a
//! typed failure instead of wrapping, saturating or rounding silently.
//! Division carries eighteen guard digits beyond the dividend's scale and
//! truncates toward zero there; every result an engine stores goes through
//! an explicit integer truncation whose value those guard digits never
//! change.

use vstd::prelude::*;

use crate::digits::dig_add;
use crate::digits::dig_cmp;
use crate::digits::dig_div;
use crate::digits::dig_from_u128;
use crate::digits::dig_mul;
use crate::digits::dig_norm;
use crate::digits::dig_shift;
use crate::digits::dig_sub;
use crate::digits::dig_to_u128;
use crate::digits::digits_norm;
use crate::digits::lemma_pow10_adds;
use crate::digits::lemma_pow10_increases;
use crate::digits::lemma_pow10_pos;
use crate::digits::lemma_val_bound;
use crate::digits::lemma_val_decompose;
use crate::digits::lemma_val_lower;
use crate::digits::pow10;
use crate::digits::val;
use crate::errors::EngineError;
use crate::digits::lemma_val_skip_step;
use vstd::arithmetic::div_mod::lemma_basic_div;
use vstd::arithmetic::div_mod::lemma_fundamental_div_mod_converse;
use vstd::string::StrSliceExecFns;
use vstd::string::StringExecFns;

verus! {

/// Natural-number power.
pub open spec fn pow_nat(b: nat, e: nat) -> nat
    decreases e,
{
    if e == 0 {
        1
    } else {
        b * pow_nat(b, (e - 1) as nat)
    }
}

pub proof fn lemma_pow_nat_ten(e: nat)
    ensures
        pow_nat(10, e) == pow10(e),
    decreases e,
{
    if e > 0 {
        lemma_pow_nat_ten((e - 1) as nat);
    }
}

/// An unsigned decimal: `mant / 10^scale`, with `mant` a normalized
/// little-endian digit vector.
#[derive(Debug, Clone)]
pub struct Decimal {
    pub mant: Vec<u8>,
    pub scale: usize,
}

/// The larger of the two scales: the common scale the pair is aligned to.
pub open spec fn smax(a: Decimal, b: Decimal) -> nat {
    if a.s() >= b.s() {
        a.s()
    } else {
        b.s()
    }
}

/// `a`'s mantissa rescaled to the common scale of `a` and `b`.
pub open spec fn am(a: Decimal, b: Decimal) -> nat {
    a.m() * pow10((smax(a, b) - a.s()) as nat)
}

/// `b`'s mantissa rescaled to the common scale of `a` and `b`.
pub open spec fn bm(a: Decimal, b: Decimal) -> nat {
    b.m() * pow10((smax(a, b) - b.s()) as nat)
}

impl Decimal {
    /// The mantissa as a natural number.
    pub open spec fn m(self) -> nat {
        val(self.mant@)
    }

    /// The scale: the denoted value is `m() / 10^s()`.
    pub open spec fn s(self) -> nat {
        self.scale as nat
    }

    pub open spec fn wf(self) -> bool {
        digits_norm(self.mant@)
    }

    /// The integer part of the denoted value.
    pub open spec fn floor(self) -> nat {
        self.m() / pow10(self.s())
    }

    pub fn zero() -> (r: Decimal)
        ensures
            r.wf(),
            r.m() == 0,
            r.s() == 0,
    {
        Decimal { mant: Vec::new(), scale: 0 }
    }

    pub fn from_u128(v: u128) -> (r: Decimal)
        ensures
            r.wf(),
            r.m() == v as nat,
            r.s() == 0,
    {
        Decimal { mant: dig_from_u128(v), scale: 0 }
    }

    pub fn is_zero(&self) -> (r: bool)
        requires
            self.wf(),
        ensures
            r <==> self.m() == 0,
    {
        proof {
            if self.mant@.len() > 0 {
                lemma_val_lower(self.mant@);
                lemma_pow10_pos((self.mant@.len() - 1) as nat);
            }
        }
        self.mant.len() == 0
    }

    /// Shift a mantissa up so that a value at scale `from` reads at scale `to`.
    fn rescale_mant(m: &Vec<u8>, from: usize, to: usize) -> (r: Vec<u8>)
        requires
            digits_norm(m@),
            from <= to,
        ensures
            digits_norm(r@),
            val(r@) == val(m@) * pow10((to - from) as nat),
    {
        dig_shift(m, to - from)
    }

    /// Strictly greater, as values.
    pub fn gt(&self, other: &Decimal) -> (r: bool)
        requires
            self.wf(),
            other.wf(),
        ensures
            r <==> self.m() * pow10(other.s()) > other.m() * pow10(self.s()),
    {
        let sc = if self.scale >= other.scale {
            self.scale
        } else {
            other.scale
        };
        let ma = Self::rescale_mant(&self.mant, self.scale, sc);
        let mb = Self::rescale_mant(&other.mant, other.scale, sc);
        let c = dig_cmp(&ma, &mb);
        proof {
            lemma_cross_scale(*self, *other);
        }
        c == 1
    }

    /// Checked addition; exact.
    pub fn checked_add(&self, other: &Decimal) -> (r: Result<Decimal, EngineError>)
        requires
            self.wf(),
            other.wf(),
        ensures
            match r {
                Ok(d) => d.wf() && d.s() == smax(*self, *other) && d.m() == am(*self, *other) + bm(
                    *self,
                    *other,
                ),
                Err(_) => false,
            },
    {
        let sc = if self.scale >= other.scale {
            self.scale
        } else {
            other.scale
        };
        let ma = Self::rescale_mant(&self.mant, self.scale, sc);
        let mb = Self::rescale_mant(&other.mant, other.scale, sc);
        Ok(Decimal { mant: dig_add(&ma, &mb), scale: sc })
    }

    /// Checked subtraction; exact, and fails below zero.
    pub fn checked_sub(&self, other: &Decimal) -> (r: Result<Decimal, EngineError>)
        requires
            self.wf(),
            other.wf(),
        ensures
            match r {
                Ok(d) => {
                    &&& am(*self, *other) >= bm(*self, *other)
                    &&& d.wf()
                    &&& d.s() == smax(*self, *other)
                    &&& d.m() == am(*self, *other) - bm(*self, *other)
                },
                Err(e) => e == EngineError::Underflow && am(*self, *other) < bm(*self, *other),
            },
    {
        let sc = if self.scale >= other.scale {
            self.scale
        } else {
            other.scale
        };
        let ma = Self::rescale_mant(&self.mant, self.scale, sc);
        let mb = Self::rescale_mant(&other.mant, other.scale, sc);
        let c = dig_cmp(&ma, &mb);
        if c < 0 {
            return Err(EngineError::Underflow);
        }
        Ok(Decimal { mant: dig_sub(&ma, &mb), scale: sc })
    }

    /// Checked multiplication; exact in the mantissa, fails only if the
    /// combined scale cannot be represented.
    pub fn checked_mul(&self, other: &Decimal) -> (r: Result<Decimal, EngineError>)
        requires
            self.wf(),
            other.wf(),
        ensures
            match r {
                Ok(d) => {
                    &&& self.s() + other.s() <= usize::MAX
                    &&& d.wf()
                    &&& d.s() == self.s() + other.s()
                    &&& d.m() == self.m() * other.m()
                },
                Err(e) => e == EngineError::Overflow && self.s() + other.s() > usize::MAX,
            },
    {
        match self.scale.checked_add(other.scale) {
            Some(sc) => Ok(Decimal { mant: dig_mul(&self.mant, &other.mant), scale: sc }),
            None => Err(EngineError::Overflow),
        }
    }

    /// Checked division. The quotient keeps the dividend's scale plus
    /// eighteen guard digits and truncates toward zero there; fails on a
    /// zero divisor.
    pub fn checked_div(&self, other: &Decimal) -> (r: Result<Decimal, EngineError>)
        requires
            self.wf(),
            other.wf(),
        ensures
            match r {
                Ok(d) => {
                    &&& other.m() != 0
                    &&& self.s() + 18 <= usize::MAX
                    &&& other.s() + 18 <= usize::MAX
                    &&& d.wf()
                    &&& d.s() == self.s() + 18
                    &&& d.m() == (self.m() * pow10((other.s() + 18) as nat)) / other.m()
                },
                Err(e) => (e == EngineError::DivideByZero && other.m() == 0) || (e
                    == EngineError::Overflow && other.m() != 0 && (self.s() + 18 > usize::MAX
                    || other.s() + 18 > usize::MAX)),
            },
    {
        proof {
            if other.mant@.len() > 0 {
                lemma_val_lower(other.mant@);
                lemma_pow10_pos((other.mant@.len() - 1) as nat);
            }
        }
        if other.mant.len() == 0 {
            return Err(EngineError::DivideByZero);
        }
        let sc = match self.scale.checked_add(18) {
            Some(sc) => sc,
            None => {
                return Err(EngineError::Overflow);
            },
        };
        let sh = match other.scale.checked_add(18) {
            Some(sh) => sh,
            None => {
                return Err(EngineError::Overflow);
            },
        };
        let na = dig_shift(&self.mant, sh);
        let q = dig_div(&na, &other.mant);
        Ok(Decimal { mant: q, scale: sc })
    }

    /// Exact division by ten to the `k`: only the scale moves.
    pub fn div_pow10(&self, k: usize) -> (r: Result<Decimal, EngineError>)
        requires
            self.wf(),
        ensures
            match r {
                Ok(d) => {
                    &&& self.s() + k <= usize::MAX
                    &&& d.wf()
                    &&& d.s() == self.s() + k
                    &&& d.m() == self.m()
                },
                Err(e) => e == EngineError::Overflow && self.s() + k > usize::MAX,
            },
    {
        match self.scale.checked_add(k) {
            Some(sc) => {
                let m = Self::rescale_mant(&self.mant, 0, 0);
                proof {
                    assert(val(m@) == self.m() * pow10(0));
                    assert(pow10(0) == 1);
                    assert(self.m() * 1 == self.m()) by (nonlinear_arith);
                }
                Ok(Decimal { mant: m, scale: sc })
            },
            None => Err(EngineError::Overflow),
        }
    }

    /// Checked integer power by repeated multiplication.
    pub fn checked_powu(&self, e: u64) -> (r: Result<Decimal, EngineError>)
        requires
            self.wf(),
        ensures
            match r {
                Ok(d) => {
                    &&& self.s() * e <= usize::MAX
                    &&& d.wf()
                    &&& d.s() == self.s() * e
                    &&& d.m() == pow_nat(self.m(), e as nat)
                },
                Err(err) => err == EngineError::Overflow && self.s() * e > usize::MAX,
            },
    {
        let mut rm: Vec<u8> = Vec::new();
        rm.push(1);
        proof {
            assert(rm@ =~= Seq::<u8>::empty().push(1u8));
            crate::digits::lemma_val_snoc(Seq::<u8>::empty(), 1u8);
            assert(pow10(0) == 1);
        }
        let mut rs: usize = 0;
        let mut j: u64 = 0;
        while j < e
            invariant
                j <= e,
                self.wf(),
                digits_norm(rm@),
                val(rm@) == pow_nat(self.m(), j as nat),
                rs as nat == self.s() * j,
            decreases e - j,
        {
            rs = match rs.checked_add(self.scale) {
                Some(v) => v,
                None => {
                    proof {
                        assert(self.s() * (j + 1) == self.s() * j + self.s()) by (nonlinear_arith);
                        assert(self.s() * e >= self.s() * (j + 1)) by (nonlinear_arith)
                            requires
                                e >= j + 1,
                                self.s() >= 0,
                        ;
                    }
                    return Err(EngineError::Overflow);
                },
            };
            rm = dig_mul(&self.mant, &rm);
            proof {
                assert(self.s() * (j + 1) == self.s() * j + self.s()) by (nonlinear_arith);
            }
            j = j + 1;
        }
        Ok(Decimal { mant: rm, scale: rs })
    }

    /// The digits of the integer part.
    fn trunc_mant(&self) -> (r: Vec<u8>)
        requires
            self.wf(),
        ensures
            digits_norm(r@),
            val(r@) == self.floor(),
    {
        if self.scale >= self.mant.len() {
            proof {
                lemma_val_bound(self.mant@);
                lemma_pow10_increases(self.mant@.len(), self.s());
                lemma_basic_div(self.m() as int, pow10(self.s()) as int);
            }
            return Vec::new();
        }
        let mut r: Vec<u8> = Vec::new();
        let mut i: usize = self.scale;
        while i < self.mant.len()
            invariant
                self.scale <= i <= self.mant@.len(),
                digits_norm(self.mant@),
                r@ =~= self.mant@.subrange(self.scale as int, i as int),
            decreases self.mant@.len() - i,
        {
            let d = self.mant[i];
            r.push(d);
            i += 1;
        }
        proof {
            assert(r@ =~= self.mant@.skip(self.scale as int));
            lemma_val_decompose(self.mant@, self.scale as int);
            let lo = self.mant@.take(self.scale as int);
            assert(crate::digits::digits_wf(lo));
            lemma_val_bound(lo);
            assert(pow10(self.s()) * val(r@) == val(r@) * pow10(self.s())) by (nonlinear_arith);
            lemma_fundamental_div_mod_converse(
                self.m() as int,
                pow10(self.s()) as int,
                val(r@) as int,
                val(lo) as int,
            );
            assert(r@[r@.len() - 1] == self.mant@[self.mant@.len() - 1]);
        }
        r
    }

    /// Truncate toward zero to an integer and render it as a canonical
    /// decimal string.
    pub fn truncate_to_str(&self) -> (r: String)
        requires
            self.wf(),
        ensures
            is_canon_int_string(r@),
            str_val(r@) == self.floor(),
    {
        let t = self.trunc_mant();
        if t.len() == 0 {
            proof {
                reveal_strlit("0");
            }
            let z = String::from_str("0");
            proof {
                assert(z@.drop_last() =~= Seq::<char>::empty());
                assert(z@.last() == '0');
                assert('0' as u32 == 48);
                assert(char_digit(z@.last()) == 0);
                assert(str_val(z@) == 10 * str_val(z@.drop_last()) + char_digit(z@.last()));
            }
            return z;
        }
        let mut out = String::new();
        let mut i: usize = t.len();
        while i > 0
            invariant
                i <= t@.len(),
                digits_norm(t@),
                t@.len() > 0,
                out@.len() == t@.len() - i,
                str_val(out@) == val(t@.skip(i as int)),
                forall|m: int| 0 <= m < out@.len() ==> is_digit_char(#[trigger] out@[m]),
                out@.len() > 0 ==> char_digit(out@[0]) == t@[t@.len() - 1],
            decreases i,
    {
            i = i - 1;
            let ds = digit_str(t[i]);
            proof {
                let nw = out@ + ds@;
                assert(nw.drop_last() =~= out@);
                assert(nw.last() == ds@[0]);
                lemma_val_skip_step(t@, i as int);
                assert(nw[0] == if out@.len() > 0 {
                    out@[0]
                } else {
                    ds@[0]
                });
            }
            out.append(ds);
        }
        proof {
            assert(t@.skip(0) =~= t@);
        }
        out
    }

    /// Parse a decimal string: digits with at most one dot, at least one
    /// digit on each side of it.
    pub fn parse(s: &str) -> (r: Result<Decimal, EngineError>)
        ensures
            match r {
                Ok(d) => {
                    &&& is_dec_string(s@)
                    &&& d.wf()
                    &&& d.m() == dec_mant_of(s@)
                    &&& d.s() == dec_scale_of(s@)
                },
                Err(e) => e == EngineError::MalformedDecimal && !is_dec_string(s@),
            },
    {
        let n = s.unicode_len();
        if n == 0 {
            return Err(EngineError::MalformedDecimal);
        }
        let mut mant: Vec<u8> = Vec::new();
        let mut has_dot = false;
        let mut dot_pos: usize = 0;
        let ghost mut gs: Seq<char> = Seq::empty();
        let mut i: usize = 0;
        proof {
            assert(gs =~= s@.take(0));
        }
        while i < n
            invariant
                i <= n,
                n == s@.len(),
                crate::digits::digits_wf(mant@),
                !has_dot ==> forall|m: int| 0 <= m < i ==> is_digit_char(#[trigger] s@[m]),
                !has_dot ==> gs == s@.take(i as int),
                has_dot ==> {
                    &&& 1 <= dot_pos < i
                    &&& dot_pos + 2 <= n
                    &&& is_dot_char(s@[dot_pos as int])
                    &&& forall|m: int|
                        0 <= m < i && m != dot_pos ==> is_digit_char(#[trigger] s@[m])
                    &&& gs == s@.take(dot_pos as int) + s@.subrange(dot_pos as int + 1, i as int)
                },
                val(mant@) == str_val(gs),
            decreases n - i,
        {
            let c = s.get_char(i);
            let u = c as u32;
            if u == 46 {
                if has_dot {
                    proof {
                        lemma_bad_dot(s@, i as int);
                    }
                    return Err(EngineError::MalformedDecimal);
                }
                if i == 0 {
                    proof {
                        lemma_bad_dot(s@, 0);
                    }
                    return Err(EngineError::MalformedDecimal);
                }
                if i + 1 == n {
                    proof {
                        lemma_bad_dot(s@, i as int);
                    }
                    return Err(EngineError::MalformedDecimal);
                }
                has_dot = true;
                dot_pos = i;
                proof {
                    assert(gs =~= s@.take(i as int) + s@.subrange(i as int + 1, i as int + 1));
                }
            } else if 48 <= u && u <= 57 {
                let d = (u - 48) as u8;
                let ghost msnap = mant@;
                mant.insert(0, d);
                proof {
                    assert(mant@[0] == d);
                    assert(mant@.skip(1) =~= msnap);
                    let g2 = gs.push(c);
                    assert(g2.drop_last() =~= gs);
                    assert(g2.last() == c);
                    assert(char_digit(c) == d as nat);
                    gs = g2;
                    if !has_dot {
                        assert(gs =~= s@.take(i as int + 1));
                    } else {
                        assert(gs =~= s@.take(dot_pos as int) + s@.subrange(
                            dot_pos as int + 1,
                            i as int + 1,
                        ));
                    }
                }
            } else {
                proof {
                    lemma_bad_char(s@, i as int);
                }
                return Err(EngineError::MalformedDecimal);
            }
            i = i + 1;
        }
        let scale: usize = if has_dot {
            n - 1 - dot_pos
        } else {
            0
        };
        proof {
            if !has_dot {
                assert(s@.take(n as int) =~= s@);
                assert(is_int_string(s@));
            } else {
                assert(dec_split_at(s@, dot_pos as int));
                assert(!is_digit_char(s@[dot_pos as int]));
                assert(!is_int_string(s@));
                let kk = dec_dot_of(s@);
                assert(dec_split_at(s@, kk));
                lemma_split_unique(s@, kk, dot_pos as int);
                assert(gs =~= s@.take(dot_pos as int) + s@.skip(dot_pos as int + 1));
            }
        }
        dig_norm(&mut mant);
        Ok(Decimal { mant, scale })
    }

    /// Truncate toward zero to an integer and convert; fails if the integer
    /// part exceeds `u128::MAX`.
    pub fn truncate_to_u128(&self) -> (r: Result<u128, EngineError>)
        requires
            self.wf(),
        ensures
            match r {
                Ok(v) => self.floor() <= u128::MAX && v as nat == self.floor(),
                Err(e) => e == EngineError::Overflow && self.floor() > u128::MAX,
            },
    {
        let t = self.trunc_mant();
        match dig_to_u128(&t) {
            Some(v) => Ok(v),
            None => Err(EngineError::Overflow),
        }
    }
}

/// `c` is one of the characters '0' through '9'.
pub open spec fn is_digit_char(c: char) -> bool {
    48 <= c as u32 <= 57
}

/// The numeric value of a digit character.
pub open spec fn char_digit(c: char) -> nat {
    (c as u32 - 48) as nat
}

/// `c` is the character '.'.
pub open spec fn is_dot_char(c: char) -> bool {
    c as u32 == 46
}

pub open spec fn is_digits_seq(s: Seq<char>) -> bool {
    forall|i: int| 0 <= i < s.len() ==> is_digit_char(s[i])
}

/// A nonempty run of decimal digit characters.
pub open spec fn is_int_string(s: Seq<char>) -> bool {
    s.len() >= 1 && is_digits_seq(s)
}

/// An integer string without a superfluous leading zero.
pub open spec fn is_canon_int_string(s: Seq<char>) -> bool {
    is_int_string(s) && (s.len() == 1 || char_digit(s[0]) != 0)
}

/// The natural number a digit string denotes, most significant first.
pub open spec fn str_val(s: Seq<char>) -> nat
    decreases s.len(),
{
    if s.len() == 0 {
        0
    } else {
        10 * str_val(s.drop_last()) + char_digit(s.last())
    }
}

/// The string splits at position `k` into digits, a dot, and digits.
pub open spec fn dec_split_at(s: Seq<char>, k: int) -> bool {
    &&& 1 <= k <= s.len() - 2
    &&& is_dot_char(s[k])
    &&& is_digits_seq(s.take(k))
    &&& is_digits_seq(s.skip(k + 1))
}

/// A well-formed decimal string: digits, or digits '.' digits.
pub open spec fn is_dec_string(s: Seq<char>) -> bool {
    ||| is_int_string(s)
    ||| exists|k: int| dec_split_at(s, k)
}

/// The position of the dot of a decimal string that has one.
pub open spec fn dec_dot_of(s: Seq<char>) -> int {
    choose|k: int| dec_split_at(s, k)
}

/// The mantissa a decimal string denotes: its digits with the dot removed.
pub open spec fn dec_mant_of(s: Seq<char>) -> nat {
    if is_int_string(s) {
        str_val(s)
    } else {
        let k = dec_dot_of(s);
        str_val(s.take(k) + s.skip(k + 1))
    }
}

/// The scale a decimal string denotes: the count of digits after the dot.
pub open spec fn dec_scale_of(s: Seq<char>) -> nat {
    if is_int_string(s) {
        0
    } else {
        (s.len() - dec_dot_of(s) - 1) as nat
    }
}

/// A decimal string splits at only one position.
proof fn lemma_split_unique(s: Seq<char>, k1: int, k2: int)
    requires
        dec_split_at(s, k1),
        dec_split_at(s, k2),
    ensures
        k1 == k2,
{
    if k1 < k2 {
        assert(is_digit_char(s.skip(k1 + 1)[k2 - k1 - 1]));
        assert(s.skip(k1 + 1)[k2 - k1 - 1] == s[k2]);
    }
    if k2 < k1 {
        assert(is_digit_char(s.skip(k2 + 1)[k1 - k2 - 1]));
        assert(s.skip(k2 + 1)[k1 - k2 - 1] == s[k1]);
    }
}

/// A character that is neither a digit nor a dot rules the string out.
proof fn lemma_bad_char(s: Seq<char>, i: int)
    requires
        0 <= i < s.len(),
        !is_digit_char(s[i]),
        !is_dot_char(s[i]),
    ensures
        !is_dec_string(s),
{
    assert forall|k: int| !dec_split_at(s, k) by {
        if dec_split_at(s, k) {
            if i < k {
                assert(is_digit_char(s.take(k)[i]));
            } else if i > k {
                assert(is_digit_char(s.skip(k + 1)[i - k - 1]));
            }
        }
    }
}

/// A dot in first or last position, or a second dot, rules the string out.
proof fn lemma_bad_dot(s: Seq<char>, i: int)
    requires
        0 <= i < s.len(),
        is_dot_char(s[i]),
        i == 0 || i == s.len() - 1 || exists|j: int| 0 <= j < i && is_dot_char(s[j]),
    ensures
        !is_dec_string(s),
{
    assert(!is_digit_char(s[i]));
    assert forall|k: int| !dec_split_at(s, k) by {
        if dec_split_at(s, k) {
            if i < k {
                assert(is_digit_char(s.take(k)[i]));
            } else if i > k {
                assert(is_digit_char(s.skip(k + 1)[i - k - 1]));
            } else {
                // i == k, so the dot is neither first nor last; an earlier
                // dot would sit among the leading digits.
                let j = choose|j: int| 0 <= j < i && is_dot_char(s[j]);
                assert(is_digit_char(s.take(k)[j]));
            }
        }
    }
}

/// The one-character string for a digit.
fn digit_str(d: u8) -> (r: &'static str)
    requires
        d < 10,
    ensures
        r@.len() == 1,
        is_digit_char(r@[0]),
        char_digit(r@[0]) == d as nat,
{
    if d == 0 {
        proof {
            reveal_strlit("0");
        }
        "0"
    } else if d == 1 {
        proof {
            reveal_strlit("1");
        }
        "1"
    } else if d == 2 {
        proof {
            reveal_strlit("2");
        }
        "2"
    } else if d == 3 {
        proof {
            reveal_strlit("3");
        }
        "3"
    } else if d == 4 {
        proof {
            reveal_strlit("4");
        }
        "4"
    } else if d == 5 {
        proof {
            reveal_strlit("5");
        }
        "5"
    } else if d == 6 {
        proof {
            reveal_strlit("6");
        }
        "6"
    } else if d == 7 {
        proof {
            reveal_strlit("7");
        }
        "7"
    } else if d == 8 {
        proof {
            reveal_strlit("8");
        }
        "8"
    } else {
        proof {
            reveal_strlit("9");
        }
        "9"
    }
}

/// Multiplying both sides by a positive constant preserves comparisons.
pub proof fn lemma_mul_cmp(u: nat, v: nat, c: nat)
    requires
        c >= 1,
    ensures
        (u > v) <==> (u * c > v * c),
        (u < v) <==> (u * c < v * c),
        (u == v) <==> (u * c == v * c),
{
    assert((u > v) <==> (u * c > v * c)) by (nonlinear_arith)
        requires
            c >= 1,
    ;
    assert((u < v) <==> (u * c < v * c)) by (nonlinear_arith)
        requires
            c >= 1,
    ;
}

/// The aligned comparison of two decimals agrees with the cross-multiplied
/// comparison of their values.
proof fn lemma_cross_scale(a: Decimal, b: Decimal)
    ensures
        (am(a, b) > bm(a, b)) <==> (a.m() * pow10(b.s()) > b.m() * pow10(a.s())),
        (am(a, b) < bm(a, b)) <==> (a.m() * pow10(b.s()) < b.m() * pow10(a.s())),
        (am(a, b) == bm(a, b)) <==> (a.m() * pow10(b.s()) == b.m() * pow10(a.s())),
{
    let t = smax(a, b);
    let sa = a.s();
    let sb = b.s();
    let p = pow10((t - sa) as nat);
    let q = pow10((t - sb) as nat);
    let c = pow10(sa + sb);
    let w = pow10(t);
    let x = a.m() * pow10(sb);
    let y = b.m() * pow10(sa);
    lemma_pow10_pos(sa + sb);
    lemma_pow10_pos(t);
    lemma_pow10_adds((t - sa) as nat, sa + sb);
    lemma_pow10_adds(sb, t);
    assert((a.m() * p) * c == a.m() * (p * c)) by (nonlinear_arith);
    assert((a.m() * pow10(sb)) * w == a.m() * (pow10(sb) * w)) by (nonlinear_arith);
    assert(p * c == pow10(((t - sa) + (sa + sb)) as nat));
    assert(pow10(sb) * w == pow10(sb + t));
    assert(am(a, b) * c == x * w);
    lemma_pow10_adds((t - sb) as nat, sa + sb);
    lemma_pow10_adds(sa, t);
    assert((b.m() * q) * c == b.m() * (q * c)) by (nonlinear_arith);
    assert((b.m() * pow10(sa)) * w == b.m() * (pow10(sa) * w)) by (nonlinear_arith);
    assert(q * c == pow10(((t - sb) + (sa + sb)) as nat));
    assert(pow10(sa) * w == pow10(sa + t));
    assert(bm(a, b) * c == y * w);
    lemma_mul_cmp(am(a, b), bm(a, b), c);
    lemma_mul_cmp(x, y, w);
}

} // verus!
