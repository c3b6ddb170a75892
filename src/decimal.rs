//! Exact decimal literals, as they are written in a pipeline.
use vstd::prelude::*;

verus! {

/// Every entry is a decimal digit.
pub open spec fn digits_ok(s: Seq<u8>) -> bool {
    forall|i: int| 0 <= i < s.len() ==> s[i] <= 9
}

/// The number that a run of digits spells, most significant first.
pub open spec fn digits_val(s: Seq<u8>) -> nat
    decreases s.len(),
{
    if s.len() == 0 {
        0
    } else {
        digits_val(s.drop_last()) * 10 + s.last() as nat
    }
}

pub open spec fn pow10(k: nat) -> nat
    decreases k,
{
    if k == 0 {
        1
    } else {
        10 * pow10((k - 1) as nat)
    }
}

pub open spec fn zeros(n: nat) -> Seq<u8> {
    Seq::new(n, |i: int| 0u8)
}

/// A decimal literal: an optional minus sign, the digits before the point and
/// the digits after it. Its value is `±digits_val(int_digits ++ frac_digits) / 10^scale`.
#[derive(Debug, Clone, PartialEq)]
pub struct Decimal {
    pub negative: bool,
    pub int_digits: Vec<u8>,
    pub frac_digits: Vec<u8>,
}

impl Decimal {
    pub open spec fn wf(&self) -> bool {
        digits_ok(self.int_digits@) && digits_ok(self.frac_digits@)
    }
}

/// A decimal as plain values: sign, digits before the point, digits after it.
pub type DecimalView = (bool, Seq<u8>, Seq<u8>);

impl View for Decimal {
    type V = DecimalView;

    open spec fn view(&self) -> DecimalView {
        (self.negative, self.int_digits@, self.frac_digits@)
    }
}

/// All digits, before and after the point.
pub open spec fn numeral(d: DecimalView) -> Seq<u8> {
    d.1 + d.2
}

pub open spec fn scale(d: DecimalView) -> nat {
    d.2.len()
}

pub open spec fn int_part(d: DecimalView) -> nat {
    digits_val(d.1)
}

pub open spec fn frac_part(d: DecimalView) -> nat {
    digits_val(d.2)
}

/// The absolute value times `10^k`, for `k >= scale`.
pub open spec fn magnitude_at(d: DecimalView, k: nat) -> nat {
    digits_val(numeral(d)) * pow10((k - scale(d)) as nat)
}

/// The value times `10^k`, for `k >= scale`.
pub open spec fn scaled(d: DecimalView, k: nat) -> int {
    if d.0 {
        -(magnitude_at(d, k) as int)
    } else {
        magnitude_at(d, k) as int
    }
}

/// The value is above zero.
pub open spec fn is_positive(d: DecimalView) -> bool {
    !d.0 && digits_val(numeral(d)) > 0
}

/// The value lies in `[0, 1]`.
pub open spec fn is_probability(d: DecimalView) -> bool {
    (!d.0 || digits_val(numeral(d)) == 0) && digits_val(numeral(d)) <= pow10(scale(d))
}

/// The value has no fractional part and is not below zero.
pub open spec fn is_whole(d: DecimalView) -> bool {
    frac_part(d) == 0 && (!d.0 || int_part(d) == 0)
}

pub open spec fn max_nat(a: nat, b: nat) -> nat {
    if a >= b {
        a
    } else {
        b
    }
}

/// `a < b` as numbers.
pub open spec fn less_than(a: DecimalView, b: DecimalView) -> bool {
    let k = max_nat(scale(a), scale(b));
    scaled(a, k) < scaled(b, k)
}

pub proof fn lemma_pow10_pos(k: nat)
    ensures
        pow10(k) >= 1,
    decreases k,
{
    if k > 0 {
        lemma_pow10_pos((k - 1) as nat);
    }
}

/// The digits of `s ++ t` spell `s` shifted past `t`, plus `t`.
pub proof fn lemma_digits_concat(s: Seq<u8>, t: Seq<u8>)
    ensures
        digits_val(s + t) == digits_val(s) * pow10(t.len()) + digits_val(t),
    decreases t.len(),
{
    if t.len() == 0 {
        assert(s + t =~= s);
        assert(pow10(0) == 1);
        assert(digits_val(t) == 0);
    } else {
        let t0 = t.drop_last();
        lemma_digits_concat(s, t0);
        assert((s + t).drop_last() =~= s + t0);
        assert((s + t).last() == t.last());
        let a = digits_val(s);
        let p = pow10(t0.len());
        assert(pow10(t.len()) == 10 * p);
        assert((a * p + digits_val(t0)) * 10 == a * (10 * p) + digits_val(t0) * 10)
            by (nonlinear_arith);
        assert(digits_val(t) == digits_val(t0) * 10 + t.last() as nat);
        assert(digits_val(s + t) == digits_val(s + t0) * 10 + t.last() as nat);
    }
}

pub proof fn lemma_digits_bound(s: Seq<u8>)
    requires
        digits_ok(s),
    ensures
        digits_val(s) < pow10(s.len()),
    decreases s.len(),
{
    if s.len() > 0 {
        let t = s.drop_last();
        assert(digits_ok(t));
        lemma_digits_bound(t);
        assert(s.last() <= 9);
        assert(pow10(s.len()) == 10 * pow10(t.len()));
    }
}

/// A run of digits spells zero exactly when every digit is zero.
pub proof fn lemma_digits_zero(s: Seq<u8>)
    ensures
        digits_val(s) == 0 <==> (forall|i: int| 0 <= i < s.len() ==> s[i] == 0),
    decreases s.len(),
{
    if s.len() > 0 {
        let t = s.drop_last();
        lemma_digits_zero(t);
        if digits_val(s) == 0 {
            assert forall|i: int| 0 <= i < s.len() implies s[i] == 0 by {
                if i < t.len() {
                    assert(t[i] == s[i]);
                }
            }
        }
        if forall|i: int| 0 <= i < s.len() ==> s[i] == 0 {
            assert forall|i: int| 0 <= i < t.len() implies t[i] == 0 by {
                assert(t[i] == s[i]);
            }
        }
    }
}

/// Leading zeros do not change the number.
pub proof fn lemma_leading_zeros(n: nat, s: Seq<u8>)
    ensures
        digits_val(zeros(n) + s) == digits_val(s),
{
    lemma_digits_concat(zeros(n), s);
    lemma_digits_zero(zeros(n));
}

/// Trailing zeros multiply the number by a power of ten.
pub proof fn lemma_trailing_zeros(s: Seq<u8>, n: nat)
    ensures
        digits_val(s + zeros(n)) == digits_val(s) * pow10(n),
{
    lemma_digits_concat(s, zeros(n));
    lemma_digits_zero(zeros(n));
}

/// Of two digit runs of one length, the first place where they differ decides
/// which number is smaller.
pub proof fn lemma_first_difference(s: Seq<u8>, t: Seq<u8>, i: int)
    requires
        s.len() == t.len(),
        digits_ok(s),
        digits_ok(t),
        0 <= i < s.len(),
        s.subrange(0, i) == t.subrange(0, i),
        s[i] < t[i],
    ensures
        digits_val(s) < digits_val(t),
{
    let n = s.len() as int;
    let head = s.subrange(0, i);
    let rs = s.subrange(i + 1, n);
    let rt = t.subrange(i + 1, n);
    assert(s =~= (head + seq![s[i]]) + rs);
    assert(t =~= (head + seq![t[i]]) + rt);
    lemma_digits_concat(head + seq![s[i]], rs);
    lemma_digits_concat(head + seq![t[i]], rt);
    lemma_digits_concat(head, seq![s[i]]);
    lemma_digits_concat(head, seq![t[i]]);
    assert(seq![s[i]].drop_last() =~= Seq::<u8>::empty());
    assert(seq![t[i]].drop_last() =~= Seq::<u8>::empty());
    assert(digits_val(Seq::<u8>::empty()) == 0);
    assert(digits_val(seq![s[i]]) == digits_val(seq![s[i]].drop_last()) * 10 + s[i] as nat);
    assert(digits_val(seq![t[i]]) == digits_val(seq![t[i]].drop_last()) * 10 + t[i] as nat);
    assert(pow10(1) == 10) by {
        assert(pow10(0) == 1);
    }
    assert(digits_ok(rs));
    lemma_digits_bound(rs);
    let p = pow10(rs.len());
    assert(rt.len() == rs.len());
    let h = digits_val(head);
    let a = h * 10 + s[i] as nat;
    let b = h * 10 + t[i] as nat;
    assert(a + 1 <= b);
    assert(a * p + digits_val(rs) < (a + 1) * p) by (nonlinear_arith)
        requires
            digits_val(rs) < p,
    ;
    assert((a + 1) * p <= b * p) by (nonlinear_arith)
        requires
            a + 1 <= b,
    ;
}

/// Whether every digit of `s` is zero, that is whether `s` spells zero.
pub fn all_zero(s: &Vec<u8>) -> (r: bool)
    ensures
        r == (digits_val(s@) == 0),
{
    proof {
        lemma_digits_zero(s@);
    }
    let mut i: usize = 0;
    while i < s.len()
        invariant
            i <= s.len(),
            forall|j: int| 0 <= j < i ==> s@[j] == 0,
        decreases s.len() - i,
    {
        if s[i] != 0 {
            proof {
                assert(s@[i as int] != 0);
                assert(!(forall|j: int| 0 <= j < s@.len() ==> s@[j] == 0));
                lemma_digits_zero(s@);
                assert(digits_val(s@) != 0);
            }
            return false;
        }
        i = i + 1;
    }
    true
}

/// Whether the number that `s` spells is below the one `t` spells, for two
/// runs of one length.
pub fn digits_less(s: &Vec<u8>, t: &Vec<u8>) -> (r: bool)
    requires
        s@.len() == t@.len(),
        digits_ok(s@),
        digits_ok(t@),
    ensures
        r == (digits_val(s@) < digits_val(t@)),
{
    let n = s.len();
    let mut i: usize = 0;
    while i < n && s[i] == t[i]
        invariant
            i <= n,
            n == s@.len(),
            n == t@.len(),
            s@.subrange(0, i as int) == t@.subrange(0, i as int),
        decreases n - i,
    {
        proof {
            assert(s@.subrange(0, i + 1) =~= s@.subrange(0, i as int).push(s@[i as int]));
            assert(t@.subrange(0, i + 1) =~= t@.subrange(0, i as int).push(t@[i as int]));
        }
        i = i + 1;
    }
    if i == n {
        proof {
            assert(s@ =~= s@.subrange(0, n as int));
            assert(t@ =~= t@.subrange(0, n as int));
        }
        false
    } else if s[i] < t[i] {
        proof {
            lemma_first_difference(s@, t@, i as int);
        }
        true
    } else {
        proof {
            lemma_first_difference(t@, s@, i as int);
        }
        false
    }
}

impl Decimal {
    /// The digits of the absolute value times `10^width`, padded with leading
    /// zeros to `int_len + width` places.
    fn padded(&self, int_len: usize, width: usize) -> (r: Vec<u8>)
        requires
            self.wf(),
            int_len >= self.int_digits@.len(),
            width >= scale(self@),
        ensures
            r@.len() == int_len + width,
            digits_ok(r@),
            digits_val(r@) == magnitude_at(self@, width as nat),
    {
        let lead = int_len - self.int_digits.len();
        let trail = width - self.frac_digits.len();
        let mut r: Vec<u8> = Vec::new();
        let mut i: usize = 0;
        while i < lead
            invariant
                i <= lead,
                r@ =~= zeros(i as nat),
            decreases lead - i,
        {
            r.push(0);
            i = i + 1;
        }
        let mut i: usize = 0;
        while i < self.int_digits.len()
            invariant
                i <= self.int_digits@.len(),
                r@ =~= zeros(lead as nat) + self.int_digits@.subrange(0, i as int),
            decreases self.int_digits@.len() - i,
        {
            r.push(self.int_digits[i]);
            i = i + 1;
        }
        let mut i: usize = 0;
        while i < self.frac_digits.len()
            invariant
                i <= self.frac_digits@.len(),
                r@ =~= zeros(lead as nat) + self.int_digits@ + self.frac_digits@.subrange(0, i as int),
            decreases self.frac_digits@.len() - i,
        {
            r.push(self.frac_digits[i]);
            i = i + 1;
        }
        let mut i: usize = 0;
        while i < trail
            invariant
                i <= trail,
                r@ =~= zeros(lead as nat) + numeral(self@) + zeros(i as nat),
            decreases trail - i,
        {
            r.push(0);
            i = i + 1;
        }
        proof {
            assert(r@ =~= zeros(lead as nat) + (numeral(self@) + zeros(trail as nat)));
            lemma_leading_zeros(lead as nat, numeral(self@) + zeros(trail as nat));
            lemma_trailing_zeros(numeral(self@), trail as nat);
        }
        r
    }

    /// Whether `self < other` as numbers.
    pub fn lt(&self, other: &Decimal) -> (r: bool)
        requires
            self.wf(),
            other.wf(),
        ensures
            r == less_than(self@, other@),
    {
        let int_len = if self.int_digits.len() >= other.int_digits.len() {
            self.int_digits.len()
        } else {
            other.int_digits.len()
        };
        let width = if self.frac_digits.len() >= other.frac_digits.len() {
            self.frac_digits.len()
        } else {
            other.frac_digits.len()
        };
        let a = self.padded(int_len, width);
        let b = other.padded(int_len, width);
        if self.negative && other.negative {
            digits_less(&b, &a)
        } else if self.negative {
            !(all_zero(&a) && all_zero(&b))
        } else if other.negative {
            false
        } else {
            digits_less(&a, &b)
        }
    }

    /// Whether the value has no fractional part and is not below zero.
    pub fn is_whole_number(&self) -> (r: bool)
        ensures
            r == is_whole(self@),
    {
        all_zero(&self.frac_digits) && (!self.negative || all_zero(&self.int_digits))
    }

    /// The integer part of the absolute value, where it fits in a `u64`.
    pub fn int_part_u64(&self) -> (r: Option<u64>)
        requires
            self.wf(),
        ensures
            r == (if int_part(self@) <= u64::MAX {
                Some(int_part(self@) as u64)
            } else {
                None::<u64>
            }),
    {
        let ghost s = self.int_digits@;
        let mut acc: u64 = 0;
        let mut i: usize = 0;
        while i < self.int_digits.len()
            invariant
                i <= s.len(),
                s == self.int_digits@,
                digits_ok(s),
                acc == digits_val(s.subrange(0, i as int)),
            decreases s.len() - i,
        {
            let d = self.int_digits[i];
            proof {
                assert(s.subrange(0, i + 1).drop_last() =~= s.subrange(0, i as int));
                assert(d <= 9);
            }
            if acc > (u64::MAX - d as u64) / 10 {
                proof {
                    let t = s.subrange(0, i + 1);
                    assert(digits_val(t) > u64::MAX);
                    lemma_digits_concat(t, s.subrange(i + 1, s.len() as int));
                    assert(s =~= t + s.subrange(i + 1, s.len() as int));
                    lemma_pow10_pos((s.len() - i - 1) as nat);
                    assert(digits_val(t) * pow10((s.len() - i - 1) as nat) >= digits_val(t))
                        by (nonlinear_arith)
                        requires
                            pow10((s.len() - i - 1) as nat) >= 1,
                    ;
                }
                return None;
            }
            acc = acc * 10 + d as u64;
            i = i + 1;
        }
        proof {
            assert(s =~= s.subrange(0, s.len() as int));
        }
        Some(acc)
    }
}

impl Decimal {
    /// The literal `0`.
    pub fn zero() -> (r: Decimal)
        ensures
            r.wf(),
            r@ == (false, seq![0u8], Seq::<u8>::empty()),
    {
        let r = Decimal { negative: false, int_digits: vec![0u8], frac_digits: Vec::new() };
        proof {
            assert(r.int_digits@ =~= seq![0u8]);
            assert(r.frac_digits@ =~= Seq::<u8>::empty());
        }
        r
    }

    /// The literal `1`.
    pub fn one() -> (r: Decimal)
        ensures
            r.wf(),
            r@ == (false, seq![1u8], Seq::<u8>::empty()),
    {
        let r = Decimal { negative: false, int_digits: vec![1u8], frac_digits: Vec::new() };
        proof {
            assert(r.int_digits@ =~= seq![1u8]);
            assert(r.frac_digits@ =~= Seq::<u8>::empty());
        }
        r
    }

    /// The literal `0.5`.
    pub fn half() -> (r: Decimal)
        ensures
            r.wf(),
            r@ == (false, seq![0u8], seq![5u8]),
    {
        let r = Decimal { negative: false, int_digits: vec![0u8], frac_digits: vec![5u8] };
        proof {
            assert(r.int_digits@ =~= seq![0u8]);
            assert(r.frac_digits@ =~= seq![5u8]);
        }
        r
    }

    /// A copy with the same sign and digits.
    pub fn duplicate(&self) -> (r: Decimal)
        ensures
            r@ == self@,
    {
        Decimal {
            negative: self.negative,
            int_digits: self.int_digits.clone(),
            frac_digits: self.frac_digits.clone(),
        }
    }

    /// Whether the value is above zero.
    pub fn positive(&self) -> (r: bool)
        requires
            self.wf(),
        ensures
            r == is_positive(self@),
    {
        let z = Decimal::zero();
        proof {
            lemma_single_digit(0);
            assert(numeral(z@) =~= seq![0u8]);
            assert(pow10(0) == 1);
            let k = scale(self@);
            assert(max_nat(0, scale(self@)) == k);
            assert((k - scale(self@)) as nat == 0);
            assert(magnitude_at(self@, k) == digits_val(numeral(self@)) * 1);
            assert(magnitude_at(z@, k) == 0 * pow10(k));
        }
        z.lt(self)
    }

    /// Whether the value lies in `[0, 1]`.
    pub fn probability(&self) -> (r: bool)
        requires
            self.wf(),
        ensures
            r == is_probability(self@),
    {
        let z = Decimal::zero();
        let o = Decimal::one();
        proof {
            lemma_single_digit(0);
            lemma_single_digit(1);
            assert(numeral(z@) =~= seq![0u8]);
            assert(numeral(o@) =~= seq![1u8]);
            assert(pow10(0) == 1);
            let k = scale(self@);
            assert(max_nat(scale(self@), 0) == k);
            assert(magnitude_at(o@, k) == pow10(k));
            assert((k - scale(self@)) as nat == 0);
            assert(magnitude_at(self@, k) == digits_val(numeral(self@)) * 1);
            assert(magnitude_at(z@, k) == 0 * pow10(k));
        }
        !self.lt(&z) && !o.lt(self)
    }
}

pub proof fn lemma_single_digit(d: u8)
    ensures
        digits_val(seq![d]) == d as nat,
{
    assert(seq![d].drop_last() =~= Seq::<u8>::empty());
    assert(digits_val(Seq::<u8>::empty()) == 0);
}

} // verus!
