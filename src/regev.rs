use vstd::prelude::*;
use vstd::arithmetic::div_mod::{lemma_add_mod_noop, lemma_fundamental_div_mod, lemma_fundamental_div_mod_converse, lemma_mod_bound, lemma_mod_multiples_vanish, lemma_small_mod, lemma_sub_mod_noop};
use crate::element::{add_mod, Element};
use crate::error::LweError;
use crate::matrix::{all_mod, dot, dot_prefix, entries_mod, grid_add, is_grid, same_shape, Matrix};

verus! {

/// A parameter set of the scheme: the public matrix `a` (`m` rows of `n`
/// entries of `Z/qZ`), the ciphertext modulus `q` and the plaintext modulus `p`.
#[derive(Debug, Clone, PartialEq)]
pub struct Params {
    pub a: Matrix,
    pub q: u64,
    pub p: u64,
    pub n: usize,
    pub m: usize,
}

impl Params {
    /// The scheme uses a single sample, so `a` has one row of `n` entries.
    pub open spec fn wf(self) -> bool {
        &&& 2 <= self.p <= self.q < u64::MAX
        &&& self.m == 1
        &&& is_grid(self.a@, self.m as nat, self.n as nat)
        &&& entries_mod(self.a@, self.q)
    }
}

/// Every element of `v` is a proper member of its own ring.
pub open spec fn all_wf(v: Seq<Element>) -> bool {
    forall|i: int| 0 <= i < v.len() ==> (#[trigger] v[i]).wf()
}

/// The representative of `A s + noise + floor(q / p) * bit`, for the one row of `A`.
pub open spec fn encode(params: Params, s: Seq<Element>, noise: int, bit: int) -> int {
    (dot(params.a@[0], s) + noise + (params.q / params.p) * bit) % (params.q as int)
}

/// `round(raw * p / q) mod p`, halves rounded up.
pub open spec fn decode(q: int, p: int, raw: int) -> int {
    ((raw * p + q / 2) / q) % p
}

/// The plaintext digit that the ciphertext value `c` decrypts to under `s`.
pub open spec fn plain_value(params: Params, s: Seq<Element>, c: int) -> int {
    decode(params.q as int, params.p as int, (c - dot(params.a@[0], s)) % (params.q as int))
}

/// What `encrypt` returns.
pub open spec fn encrypt_outcome(params: Params, s: Seq<Element>, e: Seq<Element>, b: Element) -> Result<Element, LweError> {
    if s.len() != params.n {
        Err(LweError::DimensionMismatch)
    } else if b.q != params.p {
        Err(LweError::ModulusMismatch)
    } else if e.len() != params.m {
        Err(LweError::DimensionMismatch)
    } else if !all_mod(s, params.q) || !all_mod(e, params.q) {
        Err(LweError::ModulusMismatch)
    } else {
        Ok(Element { q: params.q, uint: encode(params, s, e[0].uint as int, b.uint as int) as u64 })
    }
}

/// What `decrypt` returns.
pub open spec fn decrypt_outcome(params: Params, s: Seq<Element>, c: Element) -> Result<Element, LweError> {
    if s.len() != params.n {
        Err(LweError::DimensionMismatch)
    } else if c.q != params.q || !all_mod(s, params.q) {
        Err(LweError::ModulusMismatch)
    } else {
        Ok(Element { q: params.p, uint: plain_value(params, s, c.uint as int) as u64 })
    }
}

fn all_in_ring(v: &Vec<Element>, q: u64) -> (r: bool)
    requires
        all_wf(v@),
    ensures
        r == all_mod(v@, q),
{
    let mut i: usize = 0;
    while i < v.len()
        invariant
            i <= v@.len(),
            all_wf(v@),
            forall|k: int| 0 <= k < i ==> (#[trigger] v@[k]).q == q,
        decreases v@.len() - i,
    {
        if v[i].q != q {
            return false;
        }
        i = i + 1;
    }
    true
}

/// Encrypts `plaintext` under `secret` with the noise `e`:
/// `A secret + e + floor(q / p) * plaintext` in `Z/qZ`.
pub fn encrypt(params: &Params, secret: &Vec<Element>, e: &Vec<Element>, plaintext: &Element) -> (r: Result<Element, LweError>)
    requires
        params.wf(),
        all_wf(secret@),
        all_wf(e@),
        plaintext.wf(),
    ensures
        r == encrypt_outcome(*params, secret@, e@, *plaintext),
        r is Ok ==> r->Ok_0.wf(),
{
    if secret.len() != params.n {
        return Err(LweError::DimensionMismatch);
    }
    if plaintext.q != params.p {
        return Err(LweError::ModulusMismatch);
    }
    if e.len() != params.m {
        return Err(LweError::DimensionMismatch);
    }
    if !all_in_ring(secret, params.q) || !all_in_ring(e, params.q) {
        return Err(LweError::ModulusMismatch);
    }
    let q = params.q;
    assert(params.a@[0].len() == secret@.len());
    let a_s = params.a.mul_vec(secret, q);
    assert(e@[0].wf() && e@[0].q == q);
    let b = a_s[0] + e[0];
    assert(q / params.p < q) by (nonlinear_arith)
        requires params.p >= 2, q > 0;
    let floor = Element::from(q, q / params.p);
    let plaintext_q = Element::from(q, plaintext.uint);
    let c = b + floor * plaintext_q;
    proof {
        let d = dot(params.a@[0], secret@);
        let x = e@[0].uint as int;
        let y = (q / params.p) * plaintext.uint;
        lemma_small_mod(x as nat, q as nat);
        lemma_add_mod_noop(d, x, q as int);
        lemma_add_mod_noop(d + x, y, q as int);
    }
    Ok(c)
}

/// Decrypts `ciphertext` under `secret`: rescales `ciphertext - A secret` from
/// `Z/qZ` to `Z/pZ`, rounding to the nearest digit.
pub fn decrypt(params: &Params, secret: &Vec<Element>, ciphertext: &Element) -> (r: Result<Element, LweError>)
    requires
        params.wf(),
        all_wf(secret@),
        ciphertext.wf(),
    ensures
        r == decrypt_outcome(*params, secret@, *ciphertext),
        r is Ok ==> r->Ok_0.wf(),
{
    if secret.len() != params.n {
        return Err(LweError::DimensionMismatch);
    }
    if ciphertext.q != params.q || !all_in_ring(secret, params.q) {
        return Err(LweError::ModulusMismatch);
    }
    let q = params.q;
    let p = params.p;
    assert(params.a@[0].len() == secret@.len());
    let a_s = params.a.mul_vec(secret, q);
    let raw = *ciphertext - a_s[0];
    let ghost d = dot(params.a@[0], secret@);
    proof {
        lemma_small_mod(ciphertext.uint as nat, q as nat);
        lemma_sub_mod_noop(ciphertext.uint as int, d, q as int);
        assert(raw.uint < q);
        assert(raw.uint * p <= (q - 1) * q) by (nonlinear_arith)
            requires raw.uint < q, p <= q;
        assert((q - 1) * q < u128::MAX - q) by (nonlinear_arith)
            requires q < u64::MAX;
    }
    let scaled: u128 = raw.uint as u128 * p as u128 + (q / 2) as u128;
    let x: u128 = (scaled / q as u128) % p as u128;
    proof {
        lemma_mod_bound((scaled / q as u128) as int, p as int);
    }
    Ok(Element::from(p, x as u64))
}

/// The absolute value of an integer.
pub open spec fn abs(x: int) -> int {
    if x < 0 { -x } else { x }
}

/// Rounding undoes the scaling by `floor(q / p)` as long as the noise `e`
/// stays clear of the rounding boundary.
proof fn lemma_decode_exact(q: int, p: int, e: int, k: int)
    requires
        2 <= p <= q,
        k >= 0,
        -(q / 2) <= e * p - k * (q % p) < q - q / 2,
    ensures
        decode(q, p, (e + (q / p) * k) % q) == k % p,
{
    let f = q / p;
    let r = q % p;
    let h = q / 2;
    let t = e + f * k;
    let j = t / q;
    let raw = t % q;
    lemma_fundamental_div_mod(q, p);
    lemma_fundamental_div_mod(t, q);
    lemma_fundamental_div_mod(k, p);
    assert(raw * p + h == q * (k - p * j) + (e * p - k * r + h)) by (nonlinear_arith)
        requires
            t == q * j + raw,
            t == e + f * k,
            q == p * f + r;
    lemma_fundamental_div_mod_converse(raw * p + h, q, k - p * j, e * p - k * r + h);
    assert(k - p * j == (k / p - j) * p + k % p) by (nonlinear_arith)
        requires k == p * (k / p) + k % p;
    lemma_mod_bound(k, p);
    lemma_fundamental_div_mod_converse(k - p * j, p, k / p - j, k % p);
}

/// Noise within the budget keeps clear of the rounding boundary.
proof fn lemma_noise_budget(q: int, p: int, e: int, k: int)
    requires
        2 <= p <= q,
        k >= 0,
        p * (abs(e) + k) < q / 2,
    ensures
        -(q / 2) <= e * p - k * (q % p) < q - q / 2,
{
    lemma_mod_bound(q, p);
    let r = q % p;
    assert(k * r <= k * p) by (nonlinear_arith)
        requires k >= 0, 0 <= r < p;
    assert(-(abs(e) * p) <= e * p <= abs(e) * p) by (nonlinear_arith)
        requires p >= 0, abs(e) == if e < 0 { -e } else { e };
    assert(p * (abs(e) + k) == abs(e) * p + k * p) by (nonlinear_arith);
    assert(k * r >= 0) by (nonlinear_arith)
        requires k >= 0, r >= 0;
}

/// Reducing a summand modulo `q` does not change a sum modulo `q`.
proof fn lemma_mod_summand(x: int, y: int, q: int)
    requires
        q > 0,
    ensures
        (x + y % q) % q == (x + y) % q,
        (x - y % q) % q == (x - y) % q,
{
    lemma_fundamental_div_mod(y, q);
    lemma_mod_multiples_vanish(y / q, x + y % q, q);
    lemma_mod_multiples_vanish(-(y / q), x - y % q, q);
    assert(q * (y / q) + (x + y % q) == x + y);
    assert(q * (-(y / q)) + (x - y % q) == x - y) by (nonlinear_arith)
        requires y == q * (y / q) + y % q;
}

/// Decrypting an encryption gives the plaintext back, as long as the noise,
/// read as the signed integer `noise`, stays within the budget
/// `p * (|noise| + plaintext) < q / 2`.
pub proof fn lemma_decrypt_encrypt(params: Params, s: Seq<Element>, e: Seq<Element>, b: Element, noise: int)
    requires
        params.wf(),
        s.len() == params.n,
        all_mod(s, params.q),
        e.len() == params.m,
        all_mod(e, params.q),
        b.wf(),
        b.q == params.p,
        e[0].uint == noise % (params.q as int),
        params.p * (abs(noise) + b.uint) < params.q / 2,
    ensures
        encrypt_outcome(params, s, e, b) is Ok,
        decrypt_outcome(params, s, encrypt_outcome(params, s, e, b)->Ok_0) == Ok::<Element, LweError>(b),
{
    let q = params.q as int;
    let p = params.p as int;
    let d = dot(params.a@[0], s);
    let fb = (q / p) * b.uint;
    let c = encode(params, s, e[0].uint as int, b.uint as int);
    lemma_mod_summand(d + fb, noise, q);
    assert(c == (d + noise + fb) % q);
    lemma_mod_summand(-d, d + noise + fb, q);
    assert((c - d) % q == (noise + fb) % q);
    lemma_noise_budget(q, p, noise, b.uint as int);
    lemma_decode_exact(q, p, noise, b.uint as int);
    lemma_small_mod(b.uint as nat, p as nat);
    lemma_mod_bound(d + noise + fb, q);
}

/// A row whose entries are `k` times those of `row`, reduced modulo `q`, has
/// `k` times the dot product, modulo `q`.
proof fn lemma_dot_scaled(scaled: Seq<Element>, row: Seq<Element>, s: Seq<Element>, k: int, q: int, len: nat)
    requires
        q > 0,
        len <= scaled.len(),
        len <= row.len(),
        forall|j: int| 0 <= j < len ==> (#[trigger] scaled[j]).uint == (k * row[j].uint) % q,
    ensures
        dot_prefix(scaled, s, len) % q == (k * dot_prefix(row, s, len)) % q,
    decreases len,
{
    if len > 0 {
        let l = (len - 1) as int;
        lemma_dot_scaled(scaled, row, s, k, q, (len - 1) as nat);
        let ds = dot_prefix(scaled, s, (len - 1) as nat);
        let dr = dot_prefix(row, s, (len - 1) as nat);
        let x = row[l].uint as int;
        let y = s[l].uint as int;
        // scaled[l] * y == (k * x) % q * y, which is k * x * y up to a multiple of q
        lemma_fundamental_div_mod(k * x, q);
        lemma_fundamental_div_mod(ds, q);
        lemma_fundamental_div_mod(k * dr, q);
        let u = (k * x) / q;
        let v = ds / q;
        let w = (k * dr) / q;
        let sc = scaled[l].uint as int;
        assert(sc * y == k * x * y - q * (u * y)) by (nonlinear_arith)
            requires sc == k * x - q * u;
        assert(k * (dr + x * y) == k * dr + k * x * y) by (nonlinear_arith);
        assert(ds == q * v + k * dr - q * w);
        assert(ds + sc * y == k * (dr + x * y) + q * (v - w - u * y)) by (nonlinear_arith)
            requires
                sc * y == k * x * y - q * (u * y),
                k * (dr + x * y) == k * dr + k * x * y,
                ds == q * v + k * dr - q * w;
        lemma_mod_multiples_vanish(v - w - u * y, k * (dr + x * y), q);
    }
}

/// Adding two ciphertexts adds their plaintexts: the sum decrypts, under the
/// parameters whose matrix is `A + A`, to the sum of the plaintexts modulo
/// `p`, as long as the summed noise stays within the budget.
pub proof fn lemma_homomorphic_add(
    params: Params,
    doubled: Params,
    s: Seq<Element>,
    e0: Seq<Element>,
    e1: Seq<Element>,
    b0: Element,
    b1: Element,
    noise0: int,
    noise1: int,
)
    requires
        params.wf(),
        doubled.q == params.q,
        doubled.p == params.p,
        doubled.n == params.n,
        doubled.m == params.m,
        doubled.a@ == grid_add(params.a@, params.a@),
        s.len() == params.n,
        all_mod(s, params.q),
        e0.len() == params.m,
        all_mod(e0, params.q),
        e1.len() == params.m,
        all_mod(e1, params.q),
        b0.wf(),
        b0.q == params.p,
        b1.wf(),
        b1.q == params.p,
        e0[0].uint == noise0 % (params.q as int),
        e1[0].uint == noise1 % (params.q as int),
        params.p * (abs(noise0 + noise1) + b0.uint + b1.uint) < params.q / 2,
    ensures
        encrypt_outcome(params, s, e0, b0) is Ok,
        encrypt_outcome(params, s, e1, b1) is Ok,
        decrypt_outcome(
            doubled,
            s,
            add_mod(encrypt_outcome(params, s, e0, b0)->Ok_0, encrypt_outcome(params, s, e1, b1)->Ok_0),
        ) == Ok::<Element, LweError>(Element { q: params.p, uint: ((b0.uint + b1.uint) % (params.p as int)) as u64 }),
{
    let q = params.q as int;
    let p = params.p as int;
    let f = q / p;
    let row = params.a@[0];
    let row2 = doubled.a@[0];
    let d = dot(row, s);
    let d2 = dot(row2, s);
    let k = b0.uint + b1.uint;
    assert forall|j: int| 0 <= j < row.len() implies (#[trigger] row2[j]).uint == (2 * row[j].uint) % q by {
        assert(row[j].wf());
    }
    lemma_dot_scaled(row2, row, s, 2, q, row.len());
    let c0 = encode(params, s, e0[0].uint as int, b0.uint as int);
    let c1 = encode(params, s, e1[0].uint as int, b1.uint as int);
    lemma_mod_summand(d + f * b0.uint, noise0, q);
    lemma_mod_summand(d + f * b1.uint, noise1, q);
    lemma_mod_bound(d + e0[0].uint + f * b0.uint, q);
    lemma_mod_bound(d + e1[0].uint + f * b1.uint, q);
    let x0 = d + noise0 + f * b0.uint;
    let x1 = d + noise1 + f * b1.uint;
    lemma_fundamental_div_mod(x0, q);
    lemma_fundamental_div_mod(x1, q);
    lemma_fundamental_div_mod(c0 + c1, q);
    lemma_fundamental_div_mod(d2, q);
    lemma_fundamental_div_mod(2 * d, q);
    let csum = (c0 + c1) % q;
    let t = (c0 + c1) / q;
    assert(f * k == f * b0.uint + f * b1.uint) by (nonlinear_arith)
        requires k == b0.uint + b1.uint;
    assert(c0 == x0 - q * (x0 / q));
    assert(c1 == x1 - q * (x1 / q));
    assert(d2 == q * (d2 / q) + 2 * d - q * ((2 * d) / q));
    assert(csum - d2 == (noise0 + noise1 + f * k) + q * (0 - (x0 / q) - (x1 / q) - t - (d2 / q) + (2 * d) / q)) by (nonlinear_arith)
        requires
            c0 == x0 - q * (x0 / q),
            c1 == x1 - q * (x1 / q),
            d2 == q * (d2 / q) + 2 * d - q * ((2 * d) / q),
            csum == c0 + c1 - q * t,
            x0 == d + noise0 + f * b0.uint,
            x1 == d + noise1 + f * b1.uint,
            f * k == f * b0.uint + f * b1.uint;
    lemma_mod_multiples_vanish(0 - (x0 / q) - (x1 / q) - t - (d2 / q) + (2 * d) / q, noise0 + noise1 + f * k, q);
    lemma_noise_budget(q, p, noise0 + noise1, k);
    lemma_decode_exact(q, p, noise0 + noise1, k);
    lemma_mod_bound(k, p);
    lemma_mod_bound(c0 + c1, q);
}

/// A demonstration parameter set: `q = 3329`, `p = 2`, one sample of length
/// `n = 512`, with every entry of `A` drawn uniformly from `Z/qZ`.
pub fn simple_params() -> (r: Params)
    ensures
        r.wf(),
        r.q == 3329,
        r.p == 2,
        r.n == 512,
        r.m == 1,
{
    let m: usize = 1;
    let n: usize = 512;
    let q: u64 = 3329;
    let p: u64 = 2;
    let mut a: Vec<Vec<Element>> = Vec::new();
    let mut i: usize = 0;
    while i < m
        invariant
            i <= m,
            m == 1,
            n == 512,
            q == 3329,
            a@.len() == i,
            forall|k: int| 0 <= k < i ==> (#[trigger] a@[k])@.len() == n && all_mod(a@[k]@, q),
        decreases m - i,
    {
        let row = gen_row(q, n);
        a.push(row);
        i = i + 1;
    }
    let a = Matrix::from(&a);
    Params { a, q, p, n, m }
}

/// `len` elements drawn uniformly from `Z/qZ`.
fn gen_row(q: u64, len: usize) -> (r: Vec<Element>)
    requires
        0 < q < u64::MAX,
    ensures
        r@.len() == len,
        all_mod(r@, q),
{
    let mut row: Vec<Element> = Vec::new();
    let mut j: usize = 0;
    while j < len
        invariant
            j <= len,
            0 < q < u64::MAX,
            row@.len() == j,
            all_mod(row@, q),
        decreases len - j,
    {
        row.push(Element::gen_uniform_rand(q));
        j = j + 1;
    }
    row
}

/// A secret of `n` elements drawn uniformly from `Z/qZ`.
pub fn gen_secret(params: &Params) -> (r: Vec<Element>)
    requires
        params.wf(),
    ensures
        r@.len() == params.n,
        all_mod(r@, params.q),
{
    gen_row(params.q, params.n)
}

/// The element of `Z/qZ` is the signed integer `noise` reduced modulo `q`,
/// for some `noise` in `[-3, 2]`.
pub open spec fn small_noise(x: Element) -> bool {
    exists|noise: int| -3 <= noise <= 2 && x.uint == #[trigger] (noise % (x.q as int))
}

/// A fresh noise vector of `m` elements, each drawn uniformly from
/// `{-3, ..., 2}` and taken modulo `q`.
pub fn gen_error_vec(params: &Params) -> (r: Vec<Element>)
    requires
        params.wf(),
        params.q > 5,
    ensures
        r@.len() == params.m,
        all_mod(r@, params.q),
        forall|i: int| 0 <= i < r@.len() ==> small_noise(#[trigger] r@[i]),
{
    let sample_space: u64 = 6;
    let half_sample_space: u64 = sample_space / 2;
    let q = params.q;
    let mut error_vec: Vec<Element> = Vec::new();
    let mut i: usize = 0;
    while i < params.m
        invariant
            i <= params.m,
            5 < q < u64::MAX,
            q == params.q,
            half_sample_space == 3,
            sample_space == 6,
            error_vec@.len() == i,
            all_mod(error_vec@, q),
            forall|k: int| 0 <= k < i ==> small_noise(#[trigger] error_vec@[k]),
        decreases params.m - i,
    {
        let rand = Element::gen_uniform_rand(sample_space);
        let mut e = Element::from(q, rand.uint);
        e.sub_assign(Element::from(q, half_sample_space));
        assert(e.uint == (rand.uint - 3) % (q as int));
        assert(small_noise(e));
        error_vec.push(e);
        i = i + 1;
    }
    error_vec
}

/// A database of `db_size` bits, each drawn uniformly and held as an element of `Z/2Z`.
pub fn gen_db(db_size: usize) -> (r: Vec<Element>)
    ensures
        r@.len() == db_size,
        all_mod(r@, 2),
{
    gen_row(2, db_size)
}

/// `c` encrypts `bit` under `s` with some noise in `[-3, 2]`.
pub open spec fn encrypts(params: Params, s: Seq<Element>, c: Element, bit: int) -> bool {
    exists|noise: int| -3 <= noise <= 2 && c.uint == #[trigger] encode(params, s, noise, bit)
}

/// The plaintext bit that `query` encrypts at index `i`.
pub open spec fn selector(i: int, idx: int) -> int {
    if i == idx { 1 } else { 0 }
}

/// Builds the encrypted one-hot selector for index `idx` of a database of
/// `db_size` bits: one ciphertext per index, of 1 at `idx` and of 0
/// elsewhere, each with its own fresh noise.
pub fn query(params: &Params, idx: usize, s: &Vec<Element>, db_size: usize) -> (r: Result<Vec<Element>, LweError>)
    requires
        params.wf(),
        params.q > 5,
        all_wf(s@),
    ensures
        idx >= db_size ==> r == Err::<Vec<Element>, LweError>(LweError::IndexOutOfBounds),
        idx < db_size && s@.len() != params.n ==> r == Err::<Vec<Element>, LweError>(LweError::DimensionMismatch),
        idx < db_size && s@.len() == params.n && !all_mod(s@, params.q) ==> r == Err::<Vec<Element>, LweError>(LweError::ModulusMismatch),
        idx < db_size && s@.len() == params.n && all_mod(s@, params.q) ==> {
            &&& r is Ok
            &&& r->Ok_0@.len() == db_size
            &&& all_mod(r->Ok_0@, params.q)
            &&& forall|i: int| 0 <= i < db_size ==> encrypts(*params, s@, #[trigger] r->Ok_0@[i], selector(i, idx as int))
        },
{
    if idx >= db_size {
        return Err(LweError::IndexOutOfBounds);
    }
    if s.len() != params.n {
        return Err(LweError::DimensionMismatch);
    }
    if !all_in_ring(s, params.q) {
        return Err(LweError::ModulusMismatch);
    }
    let mut out: Vec<Element> = Vec::new();
    let mut i: usize = 0;
    while i < db_size
        invariant
            i <= db_size,
            params.wf(),
            params.q > 5,
            all_wf(s@),
            s@.len() == params.n,
            all_mod(s@, params.q),
            out@.len() == i,
            all_mod(out@, params.q),
            forall|k: int| 0 <= k < i ==> encrypts(*params, s@, #[trigger] out@[k], selector(k, idx as int)),
        decreases db_size - i,
    {
        let bit: u64 = if i == idx { 1 } else { 0 };
        let e = gen_error_vec(params);
        let plaintext = Element::from(params.p, bit);
        let c = match encrypt(params, s, &e, &plaintext) {
            Ok(c) => c,
            Err(err) => {
                return Err(err);
            },
        };
        proof {
            let q = params.q as int;
            assert(small_noise(e@[0]));
            let noise = choose|noise: int| -3 <= noise <= 2 && e@[0].uint == #[trigger] (noise % q);
            let d = dot(params.a@[0], s@);
            lemma_mod_summand(d + (q / params.p as int) * bit, noise, q);
            assert(c.uint == encode(*params, s@, noise, bit as int));
        }
        out.push(c);
        i = i + 1;
    }
    Ok(out)
}

/// The number of ones among the first `k` database bits.
pub open spec fn count_ones(db: Seq<Element>, k: nat) -> int
    decreases k,
{
    if k == 0 {
        0
    } else {
        count_ones(db, (k - 1) as nat) + if db[k - 1].uint == 1 { 1int } else { 0int }
    }
}

/// The sum, over the integers, of the first `k` ciphertexts whose database bit is one.
pub open spec fn sum_selected(query: Seq<Element>, db: Seq<Element>, k: nat) -> int
    decreases k,
{
    if k == 0 {
        0
    } else {
        sum_selected(query, db, (k - 1) as nat) + if db[k - 1].uint == 1 { query[k - 1].uint as int } else { 0int }
    }
}

/// Every entry of `a` multiplied by `k`, in `Z/qZ`.
pub open spec fn grid_times(a: Seq<Seq<Element>>, k: int, q: u64) -> Seq<Seq<Element>> {
    Seq::new(a.len(), |i: int| Seq::new(a[i].len(), |j: int| Element { q, uint: ((k * a[i][j].uint) % (q as int)) as u64 }))
}

proof fn lemma_grid_times_step(a: Seq<Seq<Element>>, k: int, q: u64)
    requires
        0 < q < u64::MAX,
        entries_mod(a, q),
    ensures
        grid_add(grid_times(a, k, q), a) == grid_times(a, k + 1, q),
        same_shape(grid_times(a, k, q), a),
        entries_mod(grid_times(a, k, q), q),
{
    let g = grid_times(a, k, q);
    assert forall|i: int, j: int| 0 <= i < a.len() && 0 <= j < a[i].len() implies
        (#[trigger] g[i][j]).wf() && g[i][j].q == q by {
        lemma_mod_bound(k * a[i][j].uint, q as int);
    }
    assert forall|i: int| 0 <= i < a.len() implies #[trigger] grid_add(g, a)[i] =~= grid_times(a, k + 1, q)[i] by {
        assert forall|j: int| 0 <= j < a[i].len() implies #[trigger] grid_add(g, a)[i][j] == grid_times(a, k + 1, q)[i][j] by {
            let x = a[i][j].uint as int;
            lemma_mod_bound(k * x, q as int);
            lemma_mod_summand(x, k * x, q as int);
            assert((k + 1) * x == x + k * x) by (nonlinear_arith);
        }
    }
    assert(grid_add(g, a) =~= grid_times(a, k + 1, q));
}

/// The server's reply to a query: the sum, in `Z/qZ`, of the query
/// ciphertexts at the indices whose database bit is one, together with `A`
/// summed as many times. Nothing is decrypted.
pub fn answer(params: &Params, query: &Vec<Element>, db: &Vec<Element>) -> (r: (Matrix, Element))
    requires
        params.wf(),
        all_mod(query@, params.q),
        query@.len() >= db@.len(),
    ensures
        r.0@ == grid_times(params.a@, count_ones(db@, db@.len()), params.q),
        r.1 == (Element { q: params.q, uint: (sum_selected(query@, db@, db@.len()) % (params.q as int)) as u64 }),
        r.1.wf(),
{
    let q = params.q;
    let mut summed_a = Matrix::zeros(q, params.m, params.n);
    let mut summed_c = Element::zero(q);
    proof {
        lemma_small_mod(0, q as nat);
        assert forall|i: int| 0 <= i < params.m implies #[trigger] summed_a@[i] =~= grid_times(params.a@, 0, q)[i] by {
            assert(params.a@[i].len() == params.n);
            assert forall|j: int| 0 <= j < params.n implies #[trigger] summed_a@[i][j] == grid_times(params.a@, 0, q)[i][j] by {
                assert(0 * params.a@[i][j].uint == 0);
            }
        }
        assert(summed_a@ =~= grid_times(params.a@, 0, q));
        lemma_small_mod(0, q as nat);
    }
    let mut i: usize = 0;
    while i < db.len()
        invariant
            i <= db@.len(),
            params.wf(),
            q == params.q,
            all_mod(query@, q),
            query@.len() >= db@.len(),
            summed_a@ == grid_times(params.a@, count_ones(db@, i as nat), q),
            summed_c == (Element { q, uint: (sum_selected(query@, db@, i as nat) % (q as int)) as u64 }),
            summed_c.wf(),
        decreases db@.len() - i,
    {
        proof {
            lemma_grid_times_step(params.a@, count_ones(db@, i as nat), q);
        }
        if db[i].uint == 1 {
            summed_a.add_assign(&params.a, q);
            assert(query@[i as int].wf());
            summed_c = summed_c + query[i];
            proof {
                lemma_mod_summand(query@[i as int].uint as int, sum_selected(query@, db@, i as nat), q as int);
            }
        }
        i = i + 1;
    }
    (summed_a, summed_c)
}

/// The sum of the noises at the indices whose database bit is one, among the first `k`.
pub open spec fn noise_selected(noises: Seq<int>, db: Seq<Element>, k: nat) -> int
    decreases k,
{
    if k == 0 {
        0
    } else {
        noise_selected(noises, db, (k - 1) as nat) + if db[k - 1].uint == 1 { noises[k - 1] } else { 0int }
    }
}

/// The sum of the selector bits at the indices whose database bit is one, among the first `k`.
pub open spec fn selector_selected(db: Seq<Element>, idx: int, k: nat) -> int
    decreases k,
{
    if k == 0 {
        0
    } else {
        selector_selected(db, idx, (k - 1) as nat) + if db[k - 1].uint == 1 { selector(k - 1, idx) } else { 0int }
    }
}

proof fn lemma_selector_selected(db: Seq<Element>, idx: int, k: nat)
    requires
        0 <= idx < db.len(),
        k <= db.len(),
    ensures
        selector_selected(db, idx, k) == if idx < k && db[idx].uint == 1 { 1int } else { 0int },
    decreases k,
{
    if k > 0 {
        lemma_selector_selected(db, idx, (k - 1) as nat);
    }
}

/// The summed ciphertext is `count * (A s) + noise + floor(q / p) * selected`
/// up to a multiple `t` of `q`.
proof fn lemma_sum_selected(params: Params, s: Seq<Element>, query: Seq<Element>, db: Seq<Element>, idx: int, noises: Seq<int>, k: nat) -> (t: int)
    requires
        params.wf(),
        k <= db.len(),
        query.len() == db.len(),
        noises.len() == db.len(),
        forall|i: int| 0 <= i < db.len() ==> (#[trigger] query[i]).uint == encode(params, s, noises[i], selector(i, idx)),
    ensures
        sum_selected(query, db, k) == count_ones(db, k) * dot(params.a@[0], s) + noise_selected(noises, db, k)
            + (params.q / params.p) * selector_selected(db, idx, k) + params.q * t,
    decreases k,
{
    if k == 0 {
        0
    } else {
        let j = k - 1;
        let t0 = lemma_sum_selected(params, s, query, db, idx, noises, j as nat);
        let q = params.q as int;
        let f = q / params.p as int;
        let d = dot(params.a@[0], s);
        let c0 = count_ones(db, j as nat);
        let sel0 = selector_selected(db, idx, j as nat);
        if db[j].uint == 1 {
            let x = d + noises[j] + f * selector(j, idx);
            lemma_fundamental_div_mod(x, q);
            assert((c0 + 1) * d == c0 * d + d) by (nonlinear_arith);
            assert(f * (sel0 + selector(j, idx)) == f * sel0 + f * selector(j, idx)) by (nonlinear_arith);
            assert(q * (t0 - x / q) == q * t0 - q * (x / q)) by (nonlinear_arith);
            t0 - x / q
        } else {
            t0
        }
    }
}

/// The client's decode of an answer recovers the queried bit: when every
/// query ciphertext encrypts its selector bit with noise `noises[i]`, the
/// answer to a database of bits decrypts, under the parameters whose matrix is
/// the summed matrix, to `db[idx]`, as long as the noise summed over the
/// selected indices stays within the budget.
pub proof fn lemma_pir_decode(
    params: Params,
    summed: Params,
    s: Seq<Element>,
    query: Seq<Element>,
    db: Seq<Element>,
    idx: int,
    noises: Seq<int>,
)
    requires
        params.wf(),
        summed.q == params.q,
        summed.p == params.p,
        summed.n == params.n,
        summed.m == params.m,
        summed.a@ == grid_times(params.a@, count_ones(db, db.len()), params.q),
        s.len() == params.n,
        all_mod(s, params.q),
        0 <= idx < db.len(),
        query.len() == db.len(),
        noises.len() == db.len(),
        forall|i: int| 0 <= i < db.len() ==> (#[trigger] db[i]).uint < 2,
        forall|i: int| 0 <= i < db.len() ==> (#[trigger] query[i]).uint == encode(params, s, noises[i], selector(i, idx)),
        params.p * (abs(noise_selected(noises, db, db.len())) + db[idx].uint) < params.q / 2,
    ensures
        decrypt_outcome(
            summed,
            s,
            Element { q: params.q, uint: (sum_selected(query, db, db.len()) % (params.q as int)) as u64 },
        ) == Ok::<Element, LweError>(Element { q: params.p, uint: db[idx].uint }),
{
    let q = params.q as int;
    let p = params.p as int;
    let f = q / p;
    let len = db.len();
    let k = count_ones(db, len);
    let row = params.a@[0];
    let row_k = summed.a@[0];
    let d = dot(row, s);
    let dk = dot(row_k, s);
    let e = noise_selected(noises, db, len);
    let bit = db[idx].uint as int;
    assert forall|j: int| 0 <= j < row.len() implies (#[trigger] row_k[j]).uint == (k * row[j].uint) % q by {
        lemma_mod_bound(k * row[j].uint, q);
    }
    lemma_dot_scaled(row_k, row, s, k, q, row.len());
    let t = lemma_sum_selected(params, s, query, db, idx, noises, len);
    lemma_selector_selected(db, idx, len);
    let total = sum_selected(query, db, len);
    let c = total % q;
    lemma_fundamental_div_mod(total, q);
    lemma_fundamental_div_mod(dk, q);
    lemma_fundamental_div_mod(k * d, q);
    lemma_mod_bound(total, q);
    let m = t - total / q - dk / q + (k * d) / q;
    assert(c - dk == (e + f * bit) + q * m) by (nonlinear_arith)
        requires
            total == k * d + e + f * bit + q * t,
            c == total - q * (total / q),
            dk == q * (dk / q) + k * d - q * ((k * d) / q),
            m == t - total / q - dk / q + (k * d) / q;
    lemma_mod_multiples_vanish(m, e + f * bit, q);
    lemma_noise_budget(q, p, e, bit);
    lemma_decode_exact(q, p, e, bit);
    lemma_small_mod(bit as nat, p as nat);
}

} // verus!
