use vstd::prelude::*;
use crate::error::LweError;
use std::ops::{Add, Mul, Sub};
use std::cmp::Ordering;
use rand::rngs::StdRng;
use rand::{RngCore, SeedableRng};
use vstd::arithmetic::power::pow;

verus! {

/// A value of the ring `Z/qZ`: `uint` is the representative in `[0, q)`.
#[derive(Debug, Clone, Copy, PartialEq, Eq, Structural)]
pub struct Element {
    pub q: u64,
    pub uint: u64,
}

impl Element {
    /// The element is a proper member of its ring, and the ring is not the
    /// one whose modulus is the largest `u64`.
    pub open spec fn wf(self) -> bool {
        &&& 0 < self.q < u64::MAX
        &&& self.uint < self.q
    }

    /// The zero of `Z/qZ`.
    pub fn new(q: u64) -> (r: Self)
        ensures
            r.q == q,
            r.uint == 0,
    {
        Element { q, uint: 0 }
    }

    /// The element of `Z/qZ` whose representative is `uint`.
    pub fn from(q: u64, uint: u64) -> (r: Self)
        requires
            q < u64::MAX,
            uint < q,
        ensures
            r.q == q,
            r.uint == uint,
            r.wf(),
    {
        Element { q, uint }
    }

    /// `from` for values that are not known to be in range.
    pub fn checked_from(q: u64, uint: u64) -> (r: Result<Self, LweError>)
        ensures
            (q < u64::MAX && uint < q) <==> r is Ok,
            r is Err ==> r == Err::<Self, LweError>(LweError::OutOfRange),
            r is Ok ==> r->Ok_0.q == q && r->Ok_0.uint == uint,
    {
        if q < u64::MAX && uint < q {
            Ok(Element::from(q, uint))
        } else {
            Err(LweError::OutOfRange)
        }
    }

    pub open spec fn zero_spec(q: u64) -> Element {
        Element { q, uint: 0 }
    }

    /// The zero of `Z/qZ`.
    pub fn zero(q: u64) -> (r: Self)
        ensures
            r.q == q,
            r.uint == 0,
        r == Element::zero_spec(q),
    {
        Element { q, uint: 0u64 }
    }

    pub fn is_zero(&self) -> (r: bool)
        ensures
            r == (self.uint == 0),
    {
        self.uint == 0u64
    }
}

/// `(a + b) mod q`.
pub open spec fn add_mod(a: Element, b: Element) -> Element {
    Element { q: a.q, uint: ((a.uint + b.uint) % (a.q as int)) as u64 }
}

/// `(a - b) mod q`, which never leaves `[0, q)`.
pub open spec fn sub_mod(a: Element, b: Element) -> Element {
    Element { q: a.q, uint: ((a.uint - b.uint) % (a.q as int)) as u64 }
}

/// `(a * b) mod q`.
pub open spec fn mul_mod(a: Element, b: Element) -> Element {
    Element { q: a.q, uint: ((a.uint * b.uint) % (a.q as int)) as u64 }
}

/// Two elements of one ring.
pub open spec fn composable(a: Element, b: Element) -> bool {
    a.wf() && b.wf() && a.q == b.q
}

proof fn lemma_sub_mod(a: int, b: int, q: int)
    requires
        0 <= a < q,
        0 <= b < q,
    ensures
        a < b ==> (a - b) % q == q - (b - a),
        a >= b ==> (a - b) % q == a - b,
{
    if a < b {
        vstd::arithmetic::div_mod::lemma_fundamental_div_mod_converse(a - b, q, -1, q - (b - a));
    } else {
        vstd::arithmetic::div_mod::lemma_fundamental_div_mod_converse(a - b, q, 0, a - b);
    }
}

impl Element {
    pub fn add_assign(&mut self, rhs: Self)
        requires
            composable(*old(self), rhs),
        ensures
            *final(self) == add_mod(*old(self), rhs),
            final(self).wf(),
    {
        *self = *self + rhs;
    }

    pub fn sub_assign(&mut self, rhs: Self)
        requires
            composable(*old(self), rhs),
        ensures
            *final(self) == sub_mod(*old(self), rhs),
            final(self).wf(),
    {
        *self = *self - rhs;
    }

    pub fn mul_assign(&mut self, rhs: Self)
        requires
            composable(*old(self), rhs),
        ensures
            *final(self) == mul_mod(*old(self), rhs),
            final(self).wf(),
    {
        *self = *self * rhs;
    }
}

impl Add for Element {
    type Output = Element;

    fn add(self, rhs: Element) -> (r: Element)
    {
        let s: u128 = self.uint as u128 + rhs.uint as u128;
        Element { q: self.q, uint: (s % (self.q as u128)) as u64 }
    }
}

impl vstd::std_specs::ops::AddSpecImpl for Element {
    open spec fn obeys_add_spec() -> bool {
        true
    }

    open spec fn add_req(self, rhs: Element) -> bool {
        composable(self, rhs)
    }

    open spec fn add_spec(self, rhs: Element) -> Element {
        add_mod(self, rhs)
    }
}

impl Sub for Element {
    type Output = Element;

    fn sub(self, rhs: Element) -> (r: Element)
    {
        proof {
            lemma_sub_mod(self.uint as int, rhs.uint as int, self.q as int);
        }
        if self.uint < rhs.uint {
            let d = rhs.uint - self.uint;
            Element { q: self.q, uint: self.q - d }
        } else {
            Element { q: self.q, uint: self.uint - rhs.uint }
        }
    }
}

impl vstd::std_specs::ops::SubSpecImpl for Element {
    open spec fn obeys_sub_spec() -> bool {
        true
    }

    open spec fn sub_req(self, rhs: Element) -> bool {
        composable(self, rhs)
    }

    open spec fn sub_spec(self, rhs: Element) -> Element {
        sub_mod(self, rhs)
    }
}

impl Mul for Element {
    type Output = Element;

    fn mul(self, rhs: Element) -> (r: Element)
    {
        proof {
            vstd::arithmetic::mul::lemma_mul_upper_bound(
                self.uint as int, u64::MAX as int, rhs.uint as int, u64::MAX as int);
        }
        let s: u128 = self.uint as u128 * rhs.uint as u128;
        Element { q: self.q, uint: (s % (self.q as u128)) as u64 }
    }
}

impl vstd::std_specs::ops::MulSpecImpl for Element {
    open spec fn obeys_mul_spec() -> bool {
        true
    }

    open spec fn mul_req(self, rhs: Element) -> bool {
        composable(self, rhs)
    }

    open spec fn mul_spec(self, rhs: Element) -> Element {
        mul_mod(self, rhs)
    }
}

impl PartialOrd for Element {
    /// Elements of different rings have no order.
    fn partial_cmp(&self, other: &Element) -> (r: Option<Ordering>) {
        if self.q != other.q {
            None
        } else if self.uint < other.uint {
            Some(Ordering::Less)
        } else if self.uint == other.uint {
            Some(Ordering::Equal)
        } else {
            Some(Ordering::Greater)
        }
    }
}

impl vstd::std_specs::cmp::PartialOrdSpecImpl for Element {
    open spec fn obeys_partial_cmp_spec() -> bool {
        true
    }

    open spec fn partial_cmp_spec(&self, other: &Element) -> Option<Ordering> {
        if self.q != other.q {
            None
        } else if self.uint < other.uint {
            Some(Ordering::Less)
        } else if self.uint == other.uint {
            Some(Ordering::Equal)
        } else {
            Some(Ordering::Greater)
        }
    }
}

/// The number `sum_i digits[i] * p^i`, least significant digit first.
pub open spec fn horner(digits: Seq<u64>, p: int) -> int
    decreases digits.len(),
{
    if digits.len() == 0 {
        0
    } else {
        digits[0] + p * horner(digits.drop_first(), p)
    }
}

/// The first `len` digits of `n` in radix `p`, least significant first.
pub open spec fn digits_of(n: u64, p: u64, len: nat) -> Seq<u64>
    decreases len,
{
    if len == 0 {
        Seq::empty()
    } else {
        seq![n % p].add(digits_of(n / p, p, (len - 1) as nat))
    }
}

/// The number of digits that `decomposed` gives for modulus `q`:
/// `ceil(log_p(q - 1))`, the least `d` with `p^d >= q - 1`.
pub open spec fn num_digits(q: u64, p: u64) -> nat
    recommends
        p >= 2,
{
    choose|d: nat| pow(p as int, d) >= q - 1 && forall|e: nat| e < d ==> pow(p as int, e) < q - 1
}

proof fn lemma_horner_nonneg(digits: Seq<u64>, p: int)
    requires
        p >= 0,
    ensures
        horner(digits, p) >= 0,
    decreases digits.len(),
{
    if digits.len() > 0 {
        lemma_horner_nonneg(digits.drop_first(), p);
        assert(p * horner(digits.drop_first(), p) >= 0) by (nonlinear_arith)
            requires p >= 0, horner(digits.drop_first(), p) >= 0;
    }
}

/// A suffix of a digit string is worth no more than the whole string.
proof fn lemma_horner_suffix(digits: Seq<u64>, p: int, i: int)
    requires
        p >= 1,
        0 <= i <= digits.len(),
    ensures
        horner(digits.subrange(i, digits.len() as int), p) <= horner(digits, p),
    decreases i,
{
    if i > 0 {
        let tail = digits.subrange(i, digits.len() as int);
        let prev = digits.subrange(i - 1, digits.len() as int);
        assert(prev.drop_first() =~= tail);
        lemma_horner_nonneg(tail, p);
        assert(horner(tail, p) <= p * horner(tail, p)) by (nonlinear_arith)
            requires p >= 1, horner(tail, p) >= 0;
        lemma_horner_suffix(digits, p, i - 1);
    } else {
        assert(digits.subrange(0, digits.len() as int) =~= digits);
    }
}

/// Reading back the digits of `n` gives `n`, when `n` has at most `len` digits.
pub proof fn lemma_digits_round_trip(n: u64, p: u64, len: nat)
    requires
        p >= 2,
        n < pow(p as int, len),
    ensures
        horner(digits_of(n, p, len), p as int) == n,
        digits_of(n, p, len).len() == len,
    decreases len,
{
    vstd::arithmetic::power::lemma_pow_positive(p as int, len);
    if len == 0 {
        reveal(pow);
        assert(n == 0);
    } else {
        let rest = digits_of(n / p, p, (len - 1) as nat);
        vstd::arithmetic::power::lemma_pow_positive(p as int, (len - 1) as nat);
        assert(pow(p as int, len) == p * pow(p as int, (len - 1) as nat)) by {
            reveal(pow);
        }
        vstd::arithmetic::div_mod::lemma_fundamental_div_mod(n as int, p as int);
        assert(n / p < pow(p as int, (len - 1) as nat)) by (nonlinear_arith)
            requires
                n == p * (n / p) + n % p,
                n % p >= 0,
                n < p * pow(p as int, (len - 1) as nat),
                p >= 2;
        lemma_digits_round_trip(n / p, p, (len - 1) as nat);
        assert(digits_of(n, p, len).drop_first() =~= rest);
    }
}

/// Draws of the generator below this bound are rejected, so that the reduction
/// of an accepted draw modulo `q` is close to uniform on `[0, q)`.
pub open spec fn rejection_bound(q: u64) -> u64 {
    ((u64::MAX - q) % (q as int)) as u64
}

/// The generator of `rand` that the sampling functions draw from; Verus sees
/// nothing inside it.
#[verifier::external_type_specification]
#[verifier::external_body]
pub struct ExStdRng(StdRng);

/// Relies on `rand::rngs::StdRng::from_entropy`: a generator seeded from the
/// operating system. Nothing is promised of what it will produce.
#[verifier::external_body]
fn fresh_rng() -> StdRng {
    StdRng::from_entropy()
}

/// Relies on `RngCore::next_u64` of `StdRng`: the next random `u64`, any value.
#[verifier::external_body]
fn next_draw(rng: &mut StdRng) -> u64 {
    rng.next_u64()
}

impl Element {
    /// The element that the raw draw `r` stands for, or `None` when the draw
    /// lies below the rejection bound and must be drawn again.
    pub fn accept_draw(q: u64, r: u64) -> (res: Option<Element>)
        requires
            0 < q < u64::MAX,
        ensures
            res is None <==> r < rejection_bound(q),
            res is Some ==> res->Some_0.q == q && res->Some_0.uint == r % q && res->Some_0.wf(),
    {
        let min = (u64::MAX - q) % q;
        if r >= min {
            Some(Element::from(q, r % q))
        } else {
            None
        }
    }

    /// An element of `Z/qZ` drawn by rejection sampling from a fresh generator.
    pub fn gen_uniform_rand(q: u64) -> (r: Self)
        requires
            0 < q < u64::MAX,
        ensures
            r.q == q,
            r.wf(),
    {
        let mut rng = fresh_rng();
        let mut tries: u64 = 0;
        let mut last: u64 = 0;
        while tries < u64::MAX
            invariant
                0 < q < u64::MAX,
            decreases u64::MAX - tries,
        {
            last = next_draw(&mut rng);
            match Element::accept_draw(q, last) {
                Some(e) => {
                    return e;
                },
                None => {},
            }
            tries = tries + 1;
        }
        // Every one of 2^64 - 1 draws was rejected: for a modulus below
        // `u64::MAX` this is vanishingly unlikely, and the last draw is used.
        Element::from(q, last % q)
    }

    /// The element `sum_i vals[i] * p^i` of `Z/qZ`.
    pub fn recompose(p: u64, q: u64, vals: &Vec<u64>) -> (r: Self)
        requires
            p >= 2,
            q < u64::MAX,
            horner(vals@, p as int) < q,
        ensures
            r.q == q,
            r.uint == horner(vals@, p as int),
            r.wf(),
    {
        let mut result: u64 = 0;
        let mut i: usize = vals.len();
        proof {
            assert(vals@.subrange(i as int, i as int) =~= Seq::<u64>::empty());
        }
        while i > 0
            invariant
                i <= vals.len(),
                p >= 2,
                horner(vals@, p as int) < q,
                result == horner(vals@.subrange(i as int, vals.len() as int), p as int),
            decreases i,
        {
            let ghost tail = vals@.subrange(i as int, vals.len() as int);
            let ghost prev = vals@.subrange(i - 1, vals.len() as int);
            proof {
                assert(prev.drop_first() =~= tail);
                lemma_horner_suffix(vals@, p as int, i - 1);
                lemma_horner_nonneg(tail, p as int);
                assert(result * p <= horner(prev, p as int)) by (nonlinear_arith)
                    requires horner(prev, p as int) == vals@[i - 1] + p * result, vals@[i - 1] >= 0;
            }
            result = result * p + vals[i - 1];
            i = i - 1;
        }
        assert(vals@.subrange(0, vals.len() as int) =~= vals@);
        Element::from(q, result)
    }

    /// The radix-`p` digits of the value, least significant first, padded with
    /// zeros to `ceil(log_p(q - 1))` digits.
    pub fn decomposed(self, p: u64) -> (digits: Vec<u64>)
        requires
            self.wf(),
            p >= 2,
            self.uint < pow(p as int, num_digits(self.q, p)),
        ensures
            digits@ == digits_of(self.uint, p, num_digits(self.q, p)),
    {
        let nd = Element::digit_count(self.q, p);
        let mut digits: Vec<u64> = Vec::new();
        let mut n: u64 = self.uint;
        let mut i: usize = 0;
        while i < nd
            invariant
                i <= nd,
                p >= 2,
                nd == num_digits(self.q, p),
                digits@ + digits_of(n, p, (nd - i) as nat) == digits_of(self.uint, p, nd as nat),
            decreases nd - i,
        {
            let ghost rest = digits_of(n / p, p, (nd - i - 1) as nat);
            proof {
                assert(digits@.push(n % p) + rest =~= digits@ + digits_of(n, p, (nd - i) as nat));
            }
            digits.push(n % p);
            n = n / p;
            i = i + 1;
        }
        proof {
            assert(digits_of(n, p, 0) =~= Seq::<u64>::empty());
            assert(digits@ + Seq::<u64>::empty() =~= digits@);
        }
        digits
    }

    /// `ceil(log_p(q - 1))`, computed without floating point.
    fn digit_count(q: u64, p: u64) -> (d: usize)
        requires
            p >= 2,
        ensures
            d == num_digits(q, p),
    {
        let target: u128 = if q == 0 { 0 } else { (q - 1) as u128 };
        let mut pw: u128 = 1;
        let mut d: usize = 0;
        proof {
            reveal(pow);
            assert(pow(p as int, 0) == 1);
            assert(pow(2, 0) == 1);
        }
        while pw < target
            invariant
                p >= 2,
                target == if q == 0 { 0 } else { q - 1 },
                target < u64::MAX,
                pw == pow(p as int, d as nat),
                d <= 64,
                d < 64 || pw >= target,
                pow(2, d as nat) <= pw,
                pw >= 1,
                d > 0 ==> pow(p as int, (d - 1) as nat) < target,
                forall|e: nat| e < d ==> pow(p as int, e) < target,
            decreases 64 - d,
        {
            proof {
                reveal(pow);
                assert(pw * p >= 2 * pw) by (nonlinear_arith) requires p >= 2, pw >= 1;
                assert(pw * p < u128::MAX) by (nonlinear_arith)
                    requires pw < u64::MAX, p <= u64::MAX;
                assert(pow(p as int, (d + 1) as nat) == p * pow(p as int, d as nat));
                assert(pw * p == p * pw) by (nonlinear_arith);
                assert(pow(2, (d + 1) as nat) == 2 * pow(2, d as nat));
                vstd::arithmetic::power2::lemma2_to64();
                vstd::arithmetic::power2::lemma_pow2(64);
                if d + 1 >= 64 && pw * p < target {
                    vstd::arithmetic::power::lemma_pow_increases(2, 64, (d + 1) as nat);
                }
            }
            pw = pw * (p as u128);
            d = d + 1;
        }
        proof {
            assert(pow(p as int, d as nat) >= q - 1);
            let ghost dd: nat = d as nat;
            assert(pow(p as int, dd) >= q - 1 && forall|e: nat| e < dd ==> pow(p as int, e) < q - 1);
            Element::lemma_num_digits_unique(q, p, dd);
        }
        d
    }

    proof fn lemma_num_digits_unique(q: u64, p: u64, d: nat)
        requires
            pow(p as int, d) >= q - 1,
            forall|e: nat| e < d ==> pow(p as int, e) < q - 1,
        ensures
            num_digits(q, p) == d,
    {
        let c = num_digits(q, p);
        assert(pow(p as int, c) >= q - 1 && forall|e: nat| e < c ==> pow(p as int, e) < q - 1);
        if c < d {
            assert(pow(p as int, c) < q - 1);
        } else if c > d {
            assert(pow(p as int, d) < q - 1);
        }
    }
}

/// Recomposing the digits that `decomposed` gives returns the value: for
/// every `v` in `[0, q)` that fits in `ceil(log_p(q - 1))` radix-`p` digits,
/// `recompose(p, q, decomposed(v, p)) == v`.
pub proof fn lemma_recompose_decomposed(q: u64, v: u64, p: u64)
    requires
        0 < q < u64::MAX,
        v < q,
        p >= 2,
        v < pow(p as int, num_digits(q, p)),
    ensures
        horner(digits_of(v, p, num_digits(q, p)), p as int) == v,
        horner(digits_of(v, p, num_digits(q, p)), p as int) < q,
{
    lemma_digits_round_trip(v, p, num_digits(q, p));
}

} // verus!
