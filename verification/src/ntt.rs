//! The additive-NTT evaluation engine: a twiddle table of subspace-polynomial
//! evaluations over a binary evaluation domain, a forward transform that
//! evaluates a coefficient buffer on a chosen coset of that domain, and the
//! per-(round, index) twiddle lookup that the fold uses to undo one butterfly
//! layer.

use vstd::prelude::*;
use vstd::arithmetic::power2::pow2;
use vstd::arithmetic::power2::lemma_pow2_adds;
use vstd::arithmetic::power2::lemma_pow2_pos;
use vstd::arithmetic::power2::lemma_pow2_strictly_increases;
use vstd::arithmetic::power2::lemma_pow2_unfold;
use vstd::arithmetic::power2::lemma2_to64;
use vstd::arithmetic::div_mod::lemma_fundamental_div_mod;
use crate::field::F128;
use crate::field::mul_spec;
use crate::field::seq_vals;
use crate::code::CodeError;

verus! {

/// Largest supported domain-size exponent: the twiddle table holds one entry
/// per domain point, so the exponent is capped to keep the table addressable.
pub const MAX_LOG_DOMAIN: usize = 24;

/// The floor of the base-2 logarithm.
pub open spec fn lg(n: nat) -> nat
    decreases n,
{
    if n <= 1 {
        0
    } else {
        1 + lg((n / 2) as nat)
    }
}

/// Whether `n` is an exact power of two.
pub open spec fn is_power_of_two(n: nat) -> bool {
    n == pow2(lg(n))
}

/// The subspace polynomial of level `i` evaluated at the element with
/// coordinate vector `p`: W_0(X) = X, and
/// W_{i+1}(X) = W_i(X) * (W_i(X) + W_i(beta_i)) for the basis element
/// beta_i = x^i, so that W_i vanishes exactly on the span of beta_0..beta_{i-1}.
pub open spec fn w_eval(i: nat, p: u128) -> u128
    decreases i,
{
    if i == 0 {
        p
    } else {
        let prev = w_eval((i - 1) as nat, p);
        let base = w_eval((i - 1) as nat, pow2((i - 1) as nat) as u128);
        mul_spec(prev, prev ^ base)
    }
}

/// The twiddle of butterfly layer `round` at table index `idx`: the level-
/// `round` subspace polynomial evaluated at the domain point whose coordinate
/// vector is `idx` shifted above the `round + 1` low basis elements.
pub open spec fn twiddle_spec(round: nat, idx: nat) -> u128 {
    w_eval(round, (idx * pow2(round + 1)) as u128)
}

/// One butterfly layer at level `rd` of a buffer of length 2^`log_n`
/// evaluated on coset `coset`: output position `idx` of the layer. Positions
/// pair up at distance 2^`rd`; the pair (u, v) becomes
/// (u + v * t, u + v * (t + 1)) for the twiddle t of the pair's block.
pub open spec fn round_out(coset: nat, log_n: nat, rd: nat, s: Seq<u128>, idx: int) -> u128 {
    let p = pow2(rd) as int;
    let j = idx / (2 * p);
    let rem = idx % (2 * p);
    let t = twiddle_spec(rd, coset * pow2((log_n - 1 - rd) as nat) + j as nat);
    if rem < p {
        s[idx] ^ mul_spec(s[idx + p], t)
    } else {
        (s[idx - p] ^ mul_spec(s[idx], t)) ^ s[idx]
    }
}

/// One whole butterfly layer at level `rd`.
pub open spec fn butterfly_round(coset: nat, log_n: nat, rd: nat, s: Seq<u128>) -> Seq<u128> {
    Seq::new(s.len(), |idx: int| round_out(coset, log_n, rd, s, idx))
}

/// Butterfly layers `log_n - 1` down to `i`, applied to `s` in that order.
pub open spec fn rounds_from(coset: nat, log_n: nat, i: nat, s: Seq<u128>) -> Seq<u128>
    decreases log_n - i,
{
    if i >= log_n {
        s
    } else {
        butterfly_round(coset, log_n, i, rounds_from(coset, log_n, (i + 1) as nat, s))
    }
}

/// The forward transform of a coefficient buffer of length 2^`log_n` on the
/// given coset: the full butterfly network, highest layer first.
pub open spec fn transform_spec(coset: nat, log_n: nat, s: Seq<u128>) -> Seq<u128> {
    rounds_from(coset, log_n, 0, s)
}

/// The index of the domain point that position `pos` of coset `coset` is
/// evaluated at, for buffers of length 2^`log_n`: the cosets tile the domain
/// in order, so the twiddles of a layer are drawn at these indices.
pub open spec fn domain_point(log_n: nat, coset: nat, pos: nat) -> nat {
    coset * pow2(log_n) + pos
}

/// Distinct cosets never share an evaluation point: their domain-point index
/// ranges are disjoint for every buffer length.
pub proof fn lemma_coset_points_disjoint(log_n: nat, c1: nat, c2: nat, p1: nat, p2: nat)
    requires
        c1 != c2,
        p1 < pow2(log_n),
        p2 < pow2(log_n),
    ensures
        domain_point(log_n, c1, p1) != domain_point(log_n, c2, p2),
{
    let w = pow2(log_n);
    assert(c1 * w + p1 != c2 * w + p2) by (nonlinear_arith)
        requires
            c1 != c2,
            p1 < w,
            p2 < w,
    ;
}

/// Every butterfly layer preserves the buffer length, so the transform does.
pub proof fn lemma_rounds_from_len(coset: nat, log_n: nat, i: nat, s: Seq<u128>)
    ensures
        rounds_from(coset, log_n, i, s).len() == s.len(),
    decreases log_n - i,
{
    if i < log_n {
        lemma_rounds_from_len(coset, log_n, (i + 1) as nat, s);
    }
}

/// The base-2 logarithm of an exact power of two.
pub proof fn lemma_lg_pow2(k: nat)
    ensures
        lg(pow2(k)) == k,
    decreases k,
{
    lemma2_to64();
    if k > 0 {
        lemma_pow2_unfold(k);
        lemma_pow2_pos((k - 1) as nat);
        lemma_pow2_strictly_increases(0, k);
        assert(pow2(k) / 2 == pow2((k - 1) as nat));
        lemma_lg_pow2((k - 1) as nat);
    }
}

/// 2^e, for exponents within the supported domain sizes.
pub(crate) fn pow2_exec(e: usize) -> (r: usize)
    requires
        e <= MAX_LOG_DOMAIN + 1,
    ensures
        r == pow2(e as nat),
{
    let mut r: usize = 1;
    let mut i: usize = 0;
    proof {
        lemma2_to64();
    }
    while i < e
        invariant
            i <= e,
            e <= MAX_LOG_DOMAIN + 1,
            r == pow2(i as nat),
        decreases e - i,
    {
        proof {
            lemma2_to64();
            if (i as nat) < 25 {
                lemma_pow2_strictly_increases(i as nat, 25);
            }
            lemma_pow2_unfold((i + 1) as nat);
        }
        r = r * 2;
        i = i + 1;
    }
    r
}

/// The evaluation engine: a domain of size 2^`log_domain` and, for each
/// butterfly level `i`, the table of level-`i` subspace evaluations over the
/// part of the domain that level addresses.
pub struct Ntt {
    log_domain: usize,
    s_evals: Vec<Vec<F128>>,
}

impl Ntt {
    /// The domain-size exponent.
    pub closed spec fn log_d(&self) -> nat {
        self.log_domain as nat
    }

    /// The twiddle table is complete and every entry is the subspace
    /// evaluation its (level, index) slot calls for.
    pub closed spec fn wf(&self) -> bool {
        &&& self.log_domain <= MAX_LOG_DOMAIN
        &&& self.s_evals@.len() == self.log_domain
        &&& (forall|i: int|
            0 <= i < self.log_domain ==> (#[trigger] self.s_evals@[i])@.len() == pow2(
                (self.log_domain - 1 - i) as nat,
            ))
        &&& (forall|i: int, j: int|
            0 <= i < self.log_domain && 0 <= j < self.s_evals@[i]@.len() ==> (
            #[trigger] self.s_evals@[i]@[j]).v == twiddle_spec(i as nat, j as nat))
    }

    /// The domain-size exponent, for callers that must bound their requests.
    pub fn log_domain_size(&self) -> (r: usize)
        ensures
            r == self.log_d(),
            self.wf() ==> r <= MAX_LOG_DOMAIN,
    {
        self.log_domain
    }

    /// Build the engine for a domain of size 2^`log_domain`: tabulate every
    /// subspace evaluation level by level, using that each level is obtained
    /// from the previous one by W_{i+1}(x) = W_i(x) * (W_i(x) + W_i(beta_i)).
    #[verifier::loop_isolation(false)]
    pub fn new(log_domain: usize) -> (res: Result<Ntt, CodeError>)
        ensures
            res is Ok <==> log_domain <= MAX_LOG_DOMAIN,
            res is Ok ==> res->Ok_0.wf() && res->Ok_0.log_d() == log_domain,
            res is Err ==> res->Err_0 == CodeError::DomainTooLarge,
    {
        if log_domain > MAX_LOG_DOMAIN {
            return Err(CodeError::DomainTooLarge);
        }
        let n = pow2_exec(log_domain);
        let mut etab: Vec<F128> = Vec::new();
        let mut p: usize = 0;
        while p < n
            invariant
                p <= n,
                etab@.len() == p,
                forall|q: int| 0 <= q < p ==> (#[trigger] etab@[q]).v == w_eval(0, q as u128),
            decreases n - p,
        {
            etab.push(F128::new(p as u128));
            p = p + 1;
        }
        let mut s_evals: Vec<Vec<F128>> = Vec::new();
        let mut i: usize = 0;
        while i < log_domain
            invariant
                i <= log_domain,
                etab@.len() == n,
                forall|q: int| 0 <= q < n ==> (#[trigger] etab@[q]).v == w_eval(i as nat, q as u128),
                s_evals@.len() == i,
                forall|l: int|
                    0 <= l < i ==> (#[trigger] s_evals@[l])@.len() == pow2(
                        (log_domain - 1 - l) as nat,
                    ),
                forall|l: int, j: int|
                    0 <= l < i && 0 <= j < s_evals@[l]@.len() ==> (#[trigger] s_evals@[l]@[j]).v
                        == twiddle_spec(l as nat, j as nat),
            decreases log_domain - i,
        {
            let stride = pow2_exec(i + 1);
            let row_len = pow2_exec(log_domain - 1 - i);
            proof {
                lemma_pow2_adds((log_domain - 1 - i) as nat, (i + 1) as nat);
                lemma_pow2_pos((i + 1) as nat);
            }
            let mut row: Vec<F128> = Vec::new();
            let mut j: usize = 0;
            while j < row_len
                invariant
                    j <= row_len,
                    row@.len() == j,
                    forall|jj: int|
                        0 <= jj < j ==> (#[trigger] row@[jj]).v == twiddle_spec(i as nat, jj as nat),
                decreases row_len - j,
            {
                proof {
                    assert(j * stride < row_len * stride && (j + 1) * stride <= row_len * stride)
                        by (nonlinear_arith)
                        requires
                            j < row_len,
                            stride > 0,
                    ;
                }
                let idx = j * stride;
                row.push(etab[idx]);
                proof {
                    assert(row@[j as int].v == w_eval(i as nat, (j * stride) as u128));
                    assert((j * stride) as u128 == ((j as nat) * pow2((i + 1) as nat)) as u128);
                }
                j = j + 1;
            }
            s_evals.push(row);
            let bidx = pow2_exec(i);
            proof {
                lemma_pow2_strictly_increases(i as nat, log_domain as nat);
            }
            let wb = etab[bidx];
            let mut next: Vec<F128> = Vec::new();
            let mut q: usize = 0;
            while q < n
                invariant
                    q <= n,
                    next@.len() == q,
                    forall|m: int|
                        0 <= m < q ==> (#[trigger] next@[m]).v == w_eval((i + 1) as nat, m as u128),
                decreases n - q,
            {
                let x = etab[q];
                next.push(x.mul(x.add(wb)));
                proof {
                    assert(wb.v == w_eval(i as nat, pow2(i as nat) as u128));
                    assert(next@[q as int].v == mul_spec(
                        w_eval(i as nat, q as u128),
                        w_eval(i as nat, q as u128) ^ w_eval(i as nat, pow2(i as nat) as u128),
                    ));
                }
                q = q + 1;
            }
            etab = next;
            i = i + 1;
        }
        Ok(Ntt { log_domain, s_evals })
    }

    /// Evaluate the coefficient buffer `data` on coset `coset` of the domain,
    /// in place: apply every butterfly layer, highest first. Fails, leaving
    /// the buffer untouched, when the buffer length is not a power of two or
    /// the domain has no room for that coset.
    #[verifier::loop_isolation(false)]
    #[verifier::rlimit(60)]
    pub fn forward_transform(&self, data: &mut Vec<F128>, coset: u32) -> (res: Result<
        (),
        CodeError,
    >)
        requires
            self.wf(),
        ensures
            res is Ok <==> (is_power_of_two(old(data)@.len()) && lg(old(data)@.len())
                <= self.log_d() && (coset as nat) < pow2(
                (self.log_d() - lg(old(data)@.len())) as nat,
            )),
            res is Ok ==> final(data)@.len() == old(data)@.len() && seq_vals(final(data)@)
                == transform_spec(coset as nat, lg(old(data)@.len()), seq_vals(old(data)@)),
            res is Err ==> final(data)@ == old(data)@,
            res is Err ==> res->Err_0 == (if !is_power_of_two(old(data)@.len()) {
                CodeError::PowerOfTwoLengthRequired
            } else {
                CodeError::DomainTooSmall
            }),
    {
        let n = data.len();
        if n == 0 {
            proof {
                lemma2_to64();
            }
            return Err(CodeError::PowerOfTwoLengthRequired);
        }
        let mut m: usize = n;
        let mut lgn: usize = 0;
        proof {
            lemma2_to64();
        }
        while m > 1
            invariant
                1 <= m <= n,
                n == m * pow2(lgn as nat),
                pow2(lgn as nat) <= n,
                lgn < 64,
                lg(n as nat) == lgn + lg(m as nat),
                is_power_of_two(n as nat) <==> is_power_of_two(m as nat),
            decreases m,
        {
            if m % 2 == 1 {
                proof {
                    lemma_pow2_pos(lg(m as nat));
                    if m as nat == pow2(lg(m as nat)) {
                        lemma_pow2_unfold(lg(m as nat));
                    }
                }
                return Err(CodeError::PowerOfTwoLengthRequired);
            }
            proof {
                lemma_pow2_unfold((lgn + 1) as nat);
                assert((m / 2) * (2 * pow2(lgn as nat)) == m * pow2(lgn as nat))
                    by (nonlinear_arith)
                    requires
                        m % 2 == 0,
                ;
                assert(2 * pow2(lgn as nat) <= m * pow2(lgn as nat)) by (nonlinear_arith)
                    requires
                        m >= 2,
                        pow2(lgn as nat) > 0,
                ;
                lemma_pow2_pos(lgn as nat);
                if lgn + 1 >= 64 {
                    vstd::arithmetic::power2::lemma2_to64_rest();
                    lemma_pow2_strictly_increases(63, (lgn + 1) as nat);
                }
                if (m / 2) as nat == pow2(lg((m / 2) as nat)) {
                    lemma_pow2_unfold((lg((m / 2) as nat) + 1) as nat);
                }
                if m as nat == pow2(lg(m as nat)) {
                    lemma_pow2_unfold(lg(m as nat));
                }
            }
            m = m / 2;
            lgn = lgn + 1;
        }
        proof {
            assert(m == 1);
            assert(n == pow2(lgn as nat));
            lemma_lg_pow2(lgn as nat);
        }
        if lgn > self.log_domain {
            proof {
                lemma_pow2_strictly_increases(self.log_d(), lgn as nat);
            }
            return Err(CodeError::DomainTooSmall);
        }
        let coset_cap = pow2_exec(self.log_domain - lgn);
        if (coset as usize) >= coset_cap {
            return Err(CodeError::DomainTooSmall);
        }
        let ghost s0 = seq_vals(data@);
        let ghost log_n = lgn as nat;
        let mut i: usize = lgn;
        while i > 0
            invariant
                i <= lgn,
                data@.len() == n,
                seq_vals(data@) == rounds_from(coset as nat, log_n, i as nat, s0),
            decreases i,
        {
            let rd = i - 1;
            let pr = pow2_exec(rd);
            let stride = pow2_exec(rd + 1);
            let blocks = pow2_exec(lgn - 1 - rd);
            proof {
                lemma_pow2_unfold((rd + 1) as nat);
                lemma_pow2_adds((lgn - 1 - rd) as nat, (rd + 1) as nat);
                lemma_pow2_adds((self.log_domain - lgn) as nat, (lgn - 1 - rd) as nat);
                lemma_pow2_pos((lgn - 1 - rd) as nat);
                lemma_pow2_strictly_increases((self.log_domain - 1 - rd) as nat, 25);
                lemma2_to64();
                assert((coset as usize) * blocks + blocks <= coset_cap * blocks)
                    by (nonlinear_arith)
                    requires
                        (coset as usize) < coset_cap,
                        blocks > 0,
                ;
            }
            let coset_sh = (coset as usize) * blocks;
            let ghost cur = seq_vals(data@);
            let mut next: Vec<F128> = Vec::new();
            let mut idx: usize = 0;
            while idx < n
                invariant
                    idx <= n,
                    next@.len() == idx,
                    data@.len() == n,
                    seq_vals(data@) == cur,
                    forall|m2: int|
                        0 <= m2 < idx ==> (#[trigger] next@[m2]).v == round_out(
                            coset as nat,
                            log_n,
                            rd as nat,
                            cur,
                            m2,
                        ),
                decreases n - idx,
            {
                let j = idx / stride;
                let rem = idx % stride;
                proof {
                    lemma_fundamental_div_mod(idx as int, stride as int);
                    assert(j < blocks && j * stride + stride <= n) by (nonlinear_arith)
                        requires
                            idx < n,
                            n == blocks * stride,
                            stride > 0,
                            j == idx / stride,
                            idx == j * stride + rem,
                            0 <= rem < stride,
                    ;
                }
                let t = self.subspace_eval(rd, coset_sh + j);
                let out = if rem < pr {
                    let u = data[idx];
                    let v = data[idx + pr];
                    u.add(v.mul(t))
                } else {
                    let u = data[idx - pr];
                    let v = data[idx];
                    u.add(v.mul(t)).add(v)
                };
                next.push(out);
                proof {
                    assert(stride as int == 2 * (pow2(rd as nat) as int));
                    assert(next@[idx as int].v == round_out(
                        coset as nat,
                        log_n,
                        rd as nat,
                        cur,
                        idx as int,
                    ));
                }
                idx = idx + 1;
            }
            *data = next;
            proof {
                assert(seq_vals(data@) =~= butterfly_round(coset as nat, log_n, rd as nat, cur));
                assert(rounds_from(coset as nat, log_n, rd as nat, s0) == butterfly_round(
                    coset as nat,
                    log_n,
                    rd as nat,
                    rounds_from(coset as nat, log_n, (rd + 1) as nat, s0),
                ));
            }
            i = rd;
        }
        Ok(())
    }

    /// The twiddle of butterfly layer `round` at index `idx`: used by the
    /// transform to build each layer and by the fold to undo one.
    pub fn subspace_eval(&self, round: usize, idx: usize) -> (r: F128)
        requires
            self.wf(),
            round < self.log_d(),
            idx < pow2((self.log_d() - 1 - round) as nat),
        ensures
            r.v == twiddle_spec(round as nat, idx as nat),
    {
        self.s_evals[round][idx]
    }
}

} // verus!
